[package]
name = "lottie"
version = "0.1.0"
edition = "2021"
publish = false

[dependencies]
base64 = "=0.21.7"
read_color = "=1.0.0"
slotmap = "=1.1.1"
url = "=2.5.8"
serde = { version = "=1.0.229", features = ["derive"] }
serde_json = "=1.0.154"
serde_repr = "=0.1.21"
flo_curves = "=0.7.3"
euclid = "=0.22.14"
lyon_path = "=1.0.19"
thiserror = "=1.0.69"
ureq = { version = "=2.12.1", default-features = false }
fontkit = { version = "=0.5.2", default-features = false, features = ["woff", "metrics", "ras"] }
dirs = "=5.0.1"
