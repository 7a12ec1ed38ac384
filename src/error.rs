//! Errors of the filesystem.
use vstd::prelude::*;

verus! {

/// Error types used.
#[derive(Debug, Clone, Copy, PartialEq, Eq, Structural)]
pub enum Error {
    /// No entry at the requested path; overlays, mounts and caseless lookups
    /// fall through to their next candidate on this error only.
    FileNotFound,
    /// The underlying medium failed (a truncated or corrupt archive).
    Io,
    /// A path could not be read as UTF-8 where an archive needs text names.
    Utf8,
    /// The zip archive uses a compression method that is not supported.
    UnsupportedZip,
    /// The bytes are likely not a zip archive.
    InvalidZip,
}

impl Error {
    /// A short description of the error.
    pub fn message(&self) -> (r: &'static str) {
        match self {
            Error::FileNotFound => "File not found.",
            Error::Io => "IO error.",
            Error::Utf8 => "UTF8 conversion error.",
            Error::UnsupportedZip => "Unsupported Zip compression algorithm.",
            Error::InvalidZip => "File is likely not a Zip archive.",
        }
    }
}

} // verus!
