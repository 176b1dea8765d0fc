//! The error that every operation of the store reports.
use vstd::prelude::*;
use vstd::string::StringExecFns;

verus! {

/// No node, or no content, at the path.
pub const ERROR_NOT_FOUND: u32 = 1;

/// A node or a running upload is already there.
pub const ERROR_ALREADY_EXISTS: u32 = 2;

/// The path is not one the store accepts.
pub const ERROR_INVALID_PATH: u32 = 3;

/// The media type is empty or the directory sentinel.
pub const ERROR_INVALID_MIMETYPE: u32 = 4;

/// The caller lacks the capability, or its upload has expired.
pub const ERROR_PERMISSION_DENIED: u32 = 5;

/// No upload is running for the path, or not this caller's, or not of the declared size.
pub const ERROR_INVALID_SEQUENCE: u32 = 6;

/// The chunks of an upload do not line up to the declared size.
pub const ERROR_INVALID_SIZE: u32 = 7;

/// The content does not have the digest the caller gave.
pub const ERROR_INVALID_HASH: u32 = 8;

/// The root already has metadata.
pub const ERROR_ALREADY_INITIALIZED: u32 = 9;

/// The volume failed.
pub const ERROR_UNKNOWN: u32 = 0xffff_ffff;

/// A failed request: a code from the list above and a text for people.
#[derive(Debug, Clone)]
pub struct Error {
    pub code: u32,
    pub message: String,
}

impl Error {
    /// An error with the given code and text.
    pub fn new(code: u32, message: &str) -> (e: Error)
        ensures
            e.code == code,
            e.message@ == message@,
    {
        Error { code, message: String::from_str(message) }
    }

    /// A volume failure, with the volume's own words.
    pub fn unknown(detail: String) -> (e: Error)
        ensures
            e.code == ERROR_UNKNOWN,
            e.message@ == detail@,
    {
        Error { code: ERROR_UNKNOWN, message: detail }
    }
}

/// The code of a failed reply, if it failed.
pub open spec fn code_of<T>(r: Result<T, Error>) -> Option<u32> {
    match r {
        Ok(_) => None,
        Err(e) => Some(e.code),
    }
}

} // verus!
