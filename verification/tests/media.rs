use lottie::media::{
    content_length, data_uri_payload, decoded_content, embedded_content, media_location,
    network_url, remote_url, url_content, Media, MediaAsset, MediaError,
};

#[test]
fn embedded_png_is_decoded() {
    let r = embedded_content("data:image/png;base64,aGVsbG8=");
    assert_eq!(r, Some(Ok(b"hello".to_vec())));
}

#[test]
fn embedded_invalid_base64_is_an_error() {
    assert_eq!(embedded_content("data:image/png;base64,!!!"), Some(Err(MediaError::Base64Decode)));
}

#[test]
fn file_name_is_not_embedded() {
    assert_eq!(embedded_content("images/img_0.png"), None);
    assert_eq!(data_uri_payload("dat:,x"), None);
}

#[test]
fn data_uri_payload_after_first_comma() {
    assert_eq!(data_uri_payload("data:a,b,c"), Some("b,c"));
    assert_eq!(data_uri_payload("data:abc"), Some(""));
}

#[test]
fn decoded_content_maps_failure() {
    assert_eq!(decoded_content(Some(vec![1, 2])), Ok(vec![1, 2]));
    assert_eq!(decoded_content(None), Err(MediaError::Base64Decode));
}

#[test]
fn media_takes_asset_size() {
    let a = MediaAsset { filename: "x.png".to_string(), width: Some(4), height: None };
    let m = Media::new(&a, vec![9]);
    assert_eq!((m.content, m.width, m.height), (vec![9], 4, 0));
}

#[test]
fn content_length_cases() {
    assert_eq!(content_length(Some("123"), "u"), Ok(123));
    assert_eq!(content_length(Some("+7"), "u"), Ok(7));
    assert_eq!(
        content_length(Some("x1"), "http://a/b.png"),
        Err(MediaError::NetworkMalformedContentLength("http://a/b.png".to_string()))
    );
    assert_eq!(
        content_length(Some(""), "u"),
        Err(MediaError::NetworkMalformedContentLength("u".to_string()))
    );
    assert_eq!(
        content_length(None, "u"),
        Err(MediaError::NetworkMissingContentLength("u".to_string()))
    );
}

#[test]
fn data_url_location_holds_its_content() {
    let u = media_location("", "data:image/png;base64,aGVsbG8=").unwrap();
    assert_eq!(u.scheme, "data");
    assert!(!u.has_host);
    assert_eq!(url_content(&u), Some(Ok(b"hello".to_vec())));
}

#[test]
fn location_resolves_against_directory_url() {
    let u = media_location("https://example.com/assets/", "img_0.png").unwrap();
    assert_eq!(u.text, "https://example.com/assets/img_0.png");
    assert_eq!(u.path, "/assets/img_0.png");
    assert!(u.has_host);
    assert_eq!(url_content(&u), None);
}

#[test]
fn relative_location_without_directory_is_not_a_url() {
    assert_eq!(media_location("", "images/img_0.png").unwrap_err(), MediaError::Url);
}

#[test]
fn data_url_with_bad_payload() {
    let u = media_location("", "data:text/plain,%%%").unwrap();
    assert_eq!(url_content(&u), Some(Err(MediaError::Base64Decode)));
}

#[test]
fn network_url_uses_host_for_relative_paths() {
    let u = network_url("images/a.png", Some("https://cdn.example.com/x/")).unwrap();
    assert_eq!(u.text, "https://cdn.example.com/x/images/a.png");
    assert_eq!(network_url("images/a.png", None).unwrap_err(), MediaError::Url);
    let v = network_url("https://a.example.com/b.png", Some("https://c.example.com/")).unwrap();
    assert_eq!(v.text, "https://a.example.com/b.png");
}

#[test]
fn remote_url_keeps_host_or_sets_it() {
    let u = media_location("https://example.com/", "a.png").unwrap();
    assert_eq!(remote_url(u, Some("other.example.com")).unwrap().text, "https://example.com/a.png");
    let d = media_location("", "data:,x").unwrap();
    assert_eq!(remote_url(d, Some("example.com")).unwrap_err(), MediaError::Url);
}

#[test]
fn remote_url_sets_missing_host() {
    let u = media_location("", "unix:/run/foo.png").unwrap();
    assert!(!u.has_host);
    let r = remote_url(u, Some("example.com")).unwrap();
    assert_eq!(r.text, "unix://example.com/run/foo.png");
    assert!(r.has_host);
}

#[test]
fn content_length_reads_as_std_parse_does() {
    let cases = [
        "0", "007", "+12", "18446744073709551615", "18446744073709551616", "-1", "+", "12a",
        " 1", "1 ", "",
    ];
    for h in cases {
        let expected = h.parse::<usize>().ok();
        match content_length(Some(h), "u") {
            Ok(n) => assert_eq!(Some(n), expected, "{:?}", h),
            Err(e) => {
                assert_eq!(expected, None, "{:?}", h);
                assert_eq!(e, MediaError::NetworkMalformedContentLength("u".to_string()));
            }
        }
    }
}
