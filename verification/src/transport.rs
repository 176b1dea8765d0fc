//! Replies as plain records: a code, an optional text and, where there is
//! one, the value. They serve an interface that answers every request with a
//! record and never with an error.
use crate::principal::Principal;
use vstd::prelude::*;

verus! {

/// The code of a request that succeeded.
pub const SUCCESS: u32 = 0;

/// The metadata of a file in its short form: without the identities of
/// who created and who wrote it, and with a digest in every case.
#[derive(Debug, Clone)]
pub struct FileInfo {
    pub size: u64,
    pub created_at: u64,
    pub updated_at: u64,
    pub mime_type: String,
    pub sha256: [u8; 32],
    pub readable: Vec<Principal>,
    pub writable: Vec<Principal>,
    pub signature: Option<Vec<u8>>,
}

/// The reply to `save`.
#[derive(Debug, Clone)]
pub struct SaveResult {
    pub code: u32,
    pub message: Option<String>,
}

/// The reply to `load`.
#[derive(Debug, Clone)]
pub struct LoadResult {
    pub code: u32,
    pub message: Option<String>,
    pub data: Option<Vec<u8>>,
}

/// The reply to `create_directory`.
#[derive(Debug, Clone)]
pub struct CreateDirectoryResult {
    pub code: u32,
    pub message: Option<String>,
}

/// The reply to `list_files`.
#[derive(Debug, Clone)]
pub struct ListFilesResult {
    pub code: u32,
    pub message: Option<String>,
    pub data: Option<Vec<String>>,
}

} // verus!
