use sha2::{Digest, Sha256};
use yaiko::media_output::{MediaOutputError, MediaOutputValidator};
use yaiko::media_processing::MediaPath;

fn mp4_bytes() -> Vec<u8> {
    let mut bytes = vec![0, 0, 0, 24];
    bytes.extend_from_slice(b"ftypisom");
    bytes.extend_from_slice(b"payload");
    bytes
}

#[test]
fn locates_supported_outputs_with_their_content_type() {
    let v = MediaOutputValidator::new("/srv/out", 1024);
    assert_eq!(v.root(), "/srv/out");
    let (path, content_type) = v.locate("render.mp4").unwrap();
    assert_eq!(path, MediaPath::new("render.mp4").unwrap());
    assert_eq!(content_type, "video/mp4");
    assert_eq!(v.locate("a/clip.webm").unwrap().1, "video/webm");
    assert_eq!(v.locate("clip.mkv").unwrap().1, "video/x-matroska");
    assert_eq!(v.locate("../escape.mp4"), Err(MediaOutputError::UnsafePath));
    assert_eq!(v.locate("/abs.mp4"), Err(MediaOutputError::UnsafePath));
    assert_eq!(v.locate("notes.txt"), Err(MediaOutputError::UnsupportedFormat));
    assert_eq!(v.locate("noextension"), Err(MediaOutputError::UnsupportedFormat));
    assert_eq!(v.locate(".mp4"), Err(MediaOutputError::UnsupportedFormat));
}

#[test]
fn judges_file_metadata() {
    let v = MediaOutputValidator::new("root", 4);
    assert_eq!(v.check_metadata(None), Err(MediaOutputError::Missing));
    assert_eq!(v.check_metadata(Some((false, 3))), Err(MediaOutputError::Missing));
    assert_eq!(v.check_metadata(Some((true, 0))), Err(MediaOutputError::Empty));
    assert_eq!(v.check_metadata(Some((true, 10))), Err(MediaOutputError::TooLarge));
    assert_eq!(v.check_metadata(Some((true, 4))), Ok(4));
    assert_eq!(MediaOutputValidator::new("root", 0).check_metadata(Some((true, 2))), Err(MediaOutputError::TooLarge));
}

#[test]
fn finishes_with_signature_and_checksum() {
    let v = MediaOutputValidator::new("root", 1024);
    let (path, content_type) = v.locate("render.mp4").unwrap();
    let bytes = mp4_bytes();
    let out = v.finish(path, content_type, bytes.len() as u64, Some(bytes.clone())).unwrap();
    assert_eq!(out.content_type, "video/mp4");
    assert_eq!(out.size_bytes, bytes.len() as u64);
    assert_eq!(out.checksum_sha256, format!("sha256:{:x}", Sha256::digest(&bytes)));
}

#[test]
fn rejects_bad_signatures_and_read_failures() {
    let v = MediaOutputValidator::new("root", 1024);
    let (path, ct) = v.locate("bad.mp4").unwrap();
    assert_eq!(v.finish(path, ct, 3, Some(b"bad".to_vec())), Err(MediaOutputError::InvalidSignature));
    let (path, ct) = v.locate("bad.mp4").unwrap();
    assert_eq!(v.finish(path, ct, 3, None), Err(MediaOutputError::Io));
    for name in ["clip.webm", "clip.mkv"] {
        let (path, ct) = v.locate(name).unwrap();
        assert!(v.finish(path, ct, 5, Some(vec![0x1A, 0x45, 0xDF, 0xA3, 0])).is_ok());
        let (path, ct) = v.locate(name).unwrap();
        assert_eq!(v.finish(path, ct, 5, Some(mp4_bytes())), Err(MediaOutputError::InvalidSignature));
    }
}
