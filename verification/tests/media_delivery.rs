use yaiko::media_delivery::{ByteRange, MediaAsset, MediaDelivery, RangeError};

#[test]
fn parses_full_suffix_and_open_ranges() {
    assert_eq!(ByteRange::parse("bytes=2-5", 10).unwrap(), ByteRange { start: 2, end: 5 });
    assert_eq!(ByteRange::parse("bytes=-3", 10).unwrap(), ByteRange { start: 7, end: 9 });
    assert_eq!(ByteRange::parse("bytes=7-", 10).unwrap(), ByteRange { start: 7, end: 9 });
    assert_eq!(ByteRange::parse("bytes=10-", 10), Err(RangeError::Unsatisfiable));
}

#[test]
fn delivers_ranges_and_conditional_not_modified_responses() {
    let asset = MediaAsset::new(b"0123456789".to_vec(), "video/mp4".to_string());
    let partial = MediaDelivery::respond(&asset, Some("bytes=2-5"), None, Some("../clip final.mp4"));
    assert_eq!(partial.status, 206);
    assert_eq!(partial.body, b"2345");
    assert_eq!(partial.header("Content-Range").unwrap(), "bytes 2-5/10");
    assert_eq!(
        partial.header("Content-Disposition").unwrap(),
        "attachment; filename=\"clip_final.mp4\""
    );
    let not_modified = MediaDelivery::respond(&asset, None, Some(&asset.etag), None);
    assert_eq!(not_modified.status, 304);
    assert!(not_modified.body.is_empty());
}

#[test]
fn rejects_unsatisfiable_ranges_and_preserves_checksum() {
    let asset = MediaAsset::new(b"abc".to_vec(), "text/plain".to_string());
    let response = MediaDelivery::respond(&asset, Some("bytes=9-10"), None, None);
    assert_eq!(response.status, 416);
    assert_eq!(response.header("Content-Range").unwrap(), "bytes */3");
    assert!(asset.checksum_sha256().starts_with("sha256:"));
}

#[test]
fn range_length_and_invalid_header() {
    assert_eq!(ByteRange { start: 2, end: 5 }.length(), 4);
    assert!(ByteRange::parse("items=1-2", 10).is_err());
}

#[test]
fn checksum_is_the_sha256_of_the_body() {
    let asset = MediaAsset::new(b"abc".to_vec(), "text/plain".to_string());
    assert_eq!(
        asset.checksum_sha256(),
        "sha256:ba7816bf8f01cfea414140de5dae2223b00361a396177a9cb410ff61f20015ad"
    );
    assert_eq!(
        asset.etag,
        "\"sha256:ba7816bf8f01cfea414140de5dae2223b00361a396177a9cb410ff61f20015ad\""
    );
}

#[test]
fn headers_come_in_name_order() {
    let asset = MediaAsset::new(b"0123456789".to_vec(), "video/mp4".to_string());
    let r = MediaDelivery::respond(&asset, Some("bytes=2-5"), None, Some("clip.mp4"));
    let names: Vec<&str> = r.headers.iter().map(|(n, _)| n.as_str()).collect();
    assert_eq!(
        names,
        vec!["Accept-Ranges", "Content-Disposition", "Content-Length", "Content-Range", "Content-Type", "ETag"]
    );
    let r = MediaDelivery::respond(&asset, None, None, None);
    let names: Vec<&str> = r.headers.iter().map(|(n, _)| n.as_str()).collect();
    assert_eq!(names, vec!["Accept-Ranges", "Content-Length", "Content-Type", "ETag"]);
}
