//! Validation of generated media outputs before they are published: a safe relative path,
//! a supported container, a non-empty file within the size limit, and the container's
//! signature in its first bytes.
//!
//! The caller does the file-system work between the steps: [`MediaOutputValidator::locate`]
//! names the file, [`MediaOutputValidator::check_metadata`] judges what the file system says
//! of it, and [`MediaOutputValidator::finish`] judges the bytes read.
use vstd::prelude::*;
use crate::crypto::{checksum_text, sha256_checksum};
use crate::media_processing::{MediaPath, media_path_check, path_extension};
use crate::text::{owned, str_eq};

verus! {

#[derive(Debug, Clone, Copy, PartialEq, Eq, Structural)]
pub enum MediaOutputError {
    Missing,
    UnsafePath,
    UnsupportedFormat,
    Empty,
    TooLarge,
    InvalidSignature,
    Io,
}

#[derive(Debug, Clone, PartialEq, Eq)]
pub struct ValidatedMediaOutput {
    pub path: MediaPath,
    pub size_bytes: u64,
    pub checksum_sha256: String,
    pub content_type: String,
}

/// Where outputs live and how large they may be.
#[derive(Debug, Clone)]
pub struct MediaOutputValidator {
    root: String,
    max_bytes: u64,
}

/// The content type of a supported container extension.
pub open spec fn content_type_for(ext: Seq<char>) -> Option<Seq<char>> {
    if ext == "mp4"@ {
        Some("video/mp4"@)
    } else if ext == "webm"@ {
        Some("video/webm"@)
    } else if ext == "mkv"@ {
        Some("video/x-matroska"@)
    } else {
        None
    }
}

/// Whether `bytes` begin as a file of the container `ext` does: the EBML magic for WebM and
/// Matroska, `ftyp` at offset 4 for MP4.
pub open spec fn signature_ok(ext: Seq<char>, bytes: Seq<u8>) -> bool {
    if ext == "webm"@ || ext == "mkv"@ {
        bytes.len() >= 4 && bytes[0] == 0x1Au8 && bytes[1] == 0x45u8 && bytes[2] == 0xDFu8 && bytes[3]
            == 0xA3u8
    } else if ext == "mp4"@ {
        bytes.len() >= 8 && bytes[4] == 0x66u8 && bytes[5] == 0x74u8 && bytes[6] == 0x79u8 && bytes[7]
            == 0x70u8
    } else {
        false
    }
}

/// The extension of a path, or the empty text when it has none.
pub open spec fn extension_text(p: Seq<char>) -> Seq<char> {
    match path_extension(p) {
        Some(e) => e,
        None => Seq::empty(),
    }
}

fn extension_or_empty(p: &str) -> (r: String)
    ensures
        r@ == extension_text(p@),
{
    match crate::media_processing::extension_of(p) {
        Some(e) => e,
        None => String::new(),
    }
}

fn content_type_of(ext: &str) -> (r: Option<String>)
    ensures
        match content_type_for(ext@) {
            Some(t) => r matches Some(s) && s@ == t,
            None => r is None,
        },
{
    if str_eq(ext, "mp4") {
        Some(owned("video/mp4"))
    } else if str_eq(ext, "webm") {
        Some(owned("video/webm"))
    } else if str_eq(ext, "mkv") {
        Some(owned("video/x-matroska"))
    } else {
        None
    }
}

fn has_media_signature(ext: &str, bytes: &[u8]) -> (r: bool)
    ensures
        r == signature_ok(ext@, bytes@),
{
    if str_eq(ext, "webm") || str_eq(ext, "mkv") {
        bytes.len() >= 4 && bytes[0] == 0x1Au8 && bytes[1] == 0x45u8 && bytes[2] == 0xDFu8 && bytes[3] == 0xA3u8
    } else if str_eq(ext, "mp4") {
        bytes.len() >= 8 && bytes[4] == 0x66u8 && bytes[5] == 0x74u8 && bytes[6] == 0x79u8 && bytes[7] == 0x70u8
    } else {
        false
    }
}

impl MediaOutputValidator {
    pub closed spec fn root_text(&self) -> Seq<char> {
        self.root@
    }

    pub closed spec fn limit(&self) -> u64 {
        self.max_bytes
    }

    /// Outputs under `root`, each of at most `max_bytes` bytes (at least one).
    pub fn new(root: &str, max_bytes: u64) -> (v: Self)
        ensures
            v.root_text() == root@,
            v.limit() == if max_bytes >= 1 { max_bytes } else { 1 },
    {
        MediaOutputValidator { root: owned(root), max_bytes: if max_bytes >= 1 { max_bytes } else { 1 } }
    }

    /// The directory the outputs live in.
    pub fn root(&self) -> (r: &str)
        ensures
            r@ == self.root_text(),
    {
        self.root.as_str()
    }

    /// The checked relative path of an output and its content type.
    pub fn locate(&self, relative: &str) -> (r: Result<(MediaPath, String), MediaOutputError>)
        ensures
            media_path_check(relative@) is Err ==> r == Err::<(MediaPath, String), MediaOutputError>(
                MediaOutputError::UnsafePath,
            ),
            media_path_check(relative@) is Ok ==> match content_type_for(extension_text(relative@)) {
                Some(t) => r matches Ok((p, c)) && p@ == relative@ && c@ == t,
                None => r == Err::<(MediaPath, String), MediaOutputError>(MediaOutputError::UnsupportedFormat),
            },
    {
        let path = match MediaPath::new(relative) {
            Ok(p) => p,
            Err(_) => return Err(MediaOutputError::UnsafePath),
        };
        let ext = extension_or_empty(relative);
        match content_type_of(ext.as_str()) {
            Some(t) => Ok((path, t)),
            None => Err(MediaOutputError::UnsupportedFormat),
        }
    }

    /// Judges what the file system says of the output: nothing (`None`), or whether it is a
    /// regular file and its length. Gives the length when the file may be read.
    pub fn check_metadata(&self, found: Option<(bool, u64)>) -> (r: Result<u64, MediaOutputError>)
        ensures
            match found {
                None => r == Err::<u64, MediaOutputError>(MediaOutputError::Missing),
                Some((is_file, len)) => if !is_file {
                    r == Err::<u64, MediaOutputError>(MediaOutputError::Missing)
                } else if len == 0 {
                    r == Err::<u64, MediaOutputError>(MediaOutputError::Empty)
                } else if len > self.limit() {
                    r == Err::<u64, MediaOutputError>(MediaOutputError::TooLarge)
                } else {
                    r == Ok::<u64, MediaOutputError>(len)
                },
            },
    {
        match found {
            None => Err(MediaOutputError::Missing),
            Some((is_file, len)) => {
                if !is_file {
                    Err(MediaOutputError::Missing)
                } else if len == 0 {
                    Err(MediaOutputError::Empty)
                } else if len > self.max_bytes {
                    Err(MediaOutputError::TooLarge)
                } else {
                    Ok(len)
                }
            },
        }
    }

    /// Judges the bytes read from the output (`None` when reading failed): they must begin
    /// with the container's signature; the result carries their SHA-256 checksum.
    pub fn finish(&self, path: MediaPath, content_type: String, size_bytes: u64, read: Option<Vec<u8>>) -> (r:
        Result<ValidatedMediaOutput, MediaOutputError>)
        ensures
            match read {
                None => r == Err::<ValidatedMediaOutput, MediaOutputError>(MediaOutputError::Io),
                Some(bytes) => if signature_ok(extension_text(path@), bytes@) {
                    r matches Ok(o) && o.path@ == path@ && o.size_bytes == size_bytes && o.checksum_sha256@
                        == checksum_text(bytes@) && o.content_type@ == content_type@
                } else {
                    r == Err::<ValidatedMediaOutput, MediaOutputError>(MediaOutputError::InvalidSignature)
                },
            },
    {
        let bytes = match read {
            Some(b) => b,
            None => return Err(MediaOutputError::Io),
        };
        let ext = extension_or_empty(path.as_path());
        if !has_media_signature(ext.as_str(), bytes.as_slice()) {
            return Err(MediaOutputError::InvalidSignature);
        }
        let checksum_sha256 = sha256_checksum(bytes.as_slice());
        Ok(ValidatedMediaOutput { path, size_bytes, checksum_sha256, content_type })
    }
}

} // verus!
