//! A verified core for working with Lottie animation documents: colors,
//! the enumerations of the Lottie schema, keyframe normalization, keyframe
//! lookup, styled-shape grouping, layer staging and embedded media.
pub mod color;
pub mod enums;
pub mod shape;
pub mod legacy;
pub mod animated;
pub mod helpers;
pub mod timeline;
pub mod media;
pub mod renderer;
pub mod content;
