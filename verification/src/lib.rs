//! A permissioned hierarchical blob store.
//!
//! Files and directories live under paths, each with a record of metadata
//! beside it. The record names who may manage, read and write the node, and
//! what a node grants holds for everything below it. Content comes in whole
//! or in pieces, goes to a staging name first and is renamed into place, and
//! goes out in pieces of at most one MiB.
//!
//! The library holds every decision of the store and touches no volume. A
//! server reads the records that a request depends on
//! ([`permission::paths_to_read`]), hands them over as a
//! [`store::Snapshot`], and is answered with a value or with a
//! [`plan::Plan`]: the actions to perform on the volume, in order, and the
//! reply to give once they are done.
//!
//! - [`path`]: the paths the store accepts, and the names derived from them.
//! - [`principal`]: identities and their order.
//! - [`metadata`]: the record of a node and its access lists.
//! - [`store`], [`permission`]: records as a request sees them, and who may do what.
//! - [`storage`], [`listing`]: the requests on single nodes.
//! - [`upload`], [`chunked`]: uploads in pieces.
//! - [`poc`]: a dump and a reset for development.
//! - [`transport`]: replies as plain records.
//! - [`model`], [`laws`], [`round_trip`], [`soundness`]: what the actions
//!   mean on a volume, and what holds of the store whatever it is asked.
pub mod chunked;
pub mod context;
pub mod digest;
pub mod error;
pub mod laws;
pub mod listing;
pub mod metadata;
pub mod model;
pub mod path;
pub mod permission;
pub mod plan;
pub mod poc;
pub mod principal;
pub mod round_trip;
pub mod soundness;
pub mod storage;
pub mod store;
pub mod transport;
pub mod upload;
