//! The library's error kinds, shared by catalog, archive and patcher
//! operations.
use vstd::prelude::*;

verus! {

/// What went wrong: a required path or entry was absent, a create or move
/// target already existed, an archive had a format this library does not
/// read or could not be decoded, the external unpacking tool was missing, an
/// archive entry tried to escape its destination, or a plain I/O failure.
#[derive(Clone, Copy, Debug, PartialEq, Eq, Structural)]
pub enum LibError {
    NotFound,
    AlreadyExists,
    UnsupportedFormat,
    ArchiveCorrupt,
    ExternalToolMissing,
    Security,
    Io,
}

impl LibError {
    /// A short human-readable description of the error kind.
    pub fn message(&self) -> (r: String)
        ensures
            match *self {
                LibError::NotFound => r@ == "not found"@,
                LibError::AlreadyExists => r@ == "already exists"@,
                LibError::UnsupportedFormat => r@ == "unsupported archive format"@,
                LibError::ArchiveCorrupt => r@ == "archive could not be read"@,
                LibError::ExternalToolMissing => r@ == "external extraction tool missing"@,
                LibError::Security => r@ == "archive entry escapes the destination"@,
                LibError::Io => r@ == "input/output failure"@,
            },
    {
        match *self {
            LibError::NotFound => String::from_str("not found"),
            LibError::AlreadyExists => String::from_str("already exists"),
            LibError::UnsupportedFormat => String::from_str("unsupported archive format"),
            LibError::ArchiveCorrupt => String::from_str("archive could not be read"),
            LibError::ExternalToolMissing => String::from_str("external extraction tool missing"),
            LibError::Security => String::from_str("archive entry escapes the destination"),
            LibError::Io => String::from_str("input/output failure"),
        }
    }
}

} // verus!
