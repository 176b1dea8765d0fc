//! The requests on single nodes: what each one replies, and what it asks of
//! the volume.
//!
//! Every request first checks the path, then the caller's capability, then
//! what the request itself asks for. Nothing is asked of the volume before
//! all of that holds.
use crate::context::Context;
use crate::context::ContextView;
use crate::digest::sha256;
use crate::digest::sha256_of;
use crate::error::code_of;
use crate::error::Error;
use crate::error::ERROR_ALREADY_EXISTS;
use crate::error::ERROR_ALREADY_INITIALIZED;
use crate::error::ERROR_INVALID_MIMETYPE;
use crate::error::ERROR_INVALID_PATH;
use crate::error::ERROR_NOT_FOUND;
use crate::error::ERROR_PERMISSION_DENIED;
use crate::error::ERROR_UNKNOWN;
use crate::metadata::copy_principals;
use crate::metadata::grant;
use crate::metadata::revoke;
use crate::metadata::Capability;
use crate::metadata::Download;
use crate::metadata::DownloadView;
use crate::metadata::FileInfo;
use crate::metadata::FileInfoView;
use crate::metadata::Info;
use crate::metadata::Permission;
use crate::metadata::MIMETYPE_DIRECTORY;
use crate::path::holder_of;
use crate::path::holder_path;
use crate::path::staging_of;
use crate::path::temp_path;
use crate::path::utf8;
use crate::path::valid_path;
use crate::path::validate_path;
use crate::permission::check_permission;
use crate::permission::permitted;
use crate::plan::action_views;
use crate::plan::Action;
use crate::plan::ActionView;
use crate::plan::Plan;
use crate::plan::PlanView;
use crate::principal::Principal;
use crate::store::Records;
use crate::store::Snapshot;
use crate::upload::active;
use crate::upload::Sessions;
use crate::upload::UploadTable;
use vstd::prelude::*;
use vstd::string::StringExecFns;

verus! {

/// The most bytes that one ranged read returns: one MiB.
pub const MAX_READ_SIZE: usize = 1_048_576;

/// A media type that no file may have: the empty one, and the one that marks directories.
pub open spec fn reserved_mimetype(mimetype: Seq<char>) -> bool {
    mimetype.len() == 0 || mimetype == MIMETYPE_DIRECTORY@
}

/// Whether the node that holds `path` under the root `root` is a directory.
pub open spec fn parent_is_directory(records: Records, root: Seq<u8>, path: Seq<u8>) -> bool {
    records.contains_key(holder_of(root, path)) && records[holder_of(root, path)].is_dir()
}

/// Why content for `path` is refused, if it is: an invalid path, a caller
/// who may not write, a reserved media type, an upload that runs for the
/// path, a node that is there and may not be replaced, or, for a new node,
/// a parent that is no directory.
pub open spec fn save_refusal(
    records: Records,
    sessions: Sessions,
    ctx: ContextView,
    path: Seq<u8>,
    mimetype: Seq<char>,
    overwrite: bool,
) -> Option<u32> {
    if !valid_path(ctx.root, path) {
        Some(ERROR_INVALID_PATH)
    } else if !permitted(records, ctx.root, ctx.caller, path, Capability::Write) {
        Some(ERROR_PERMISSION_DENIED)
    } else if reserved_mimetype(mimetype) {
        Some(ERROR_INVALID_MIMETYPE)
    } else if active(sessions, path, ctx.now) {
        Some(ERROR_ALREADY_EXISTS)
    } else if records.contains_key(path) && !overwrite {
        Some(ERROR_ALREADY_EXISTS)
    } else if !records.contains_key(path) && !parent_is_directory(records, ctx.root, path) {
        Some(ERROR_NOT_FOUND)
    } else {
        None
    }
}

/// The record of a file after content of `size` bytes with the digest
/// `digest` was written by `ctx.caller` at `ctx.now`. A node that was there
/// keeps its creator, its time of creation and its access lists.
pub open spec fn written_record(
    existing: Option<FileInfoView>,
    ctx: ContextView,
    mimetype: Seq<char>,
    size: u64,
    digest: Seq<u8>,
) -> FileInfoView {
    match existing {
        Some(old) => FileInfoView {
            size,
            updater: ctx.caller,
            updated_at: ctx.now,
            mimetype,
            sha256: Some(digest),
            signature: None,
            ..old
        },
        None => FileInfoView {
            size,
            creator: ctx.caller,
            created_at: ctx.now,
            updater: ctx.caller,
            updated_at: ctx.now,
            mimetype,
            manageable: Seq::empty(),
            readable: Seq::empty(),
            writable: Seq::empty(),
            sha256: Some(digest),
            signature: None,
        },
    }
}

/// The record of `path` in `records`, if it has one.
pub open spec fn record_at(records: Records, path: Seq<u8>) -> Option<FileInfoView> {
    if records.contains_key(path) {
        Some(records[path])
    } else {
        None
    }
}

/// How content comes to stand at `path`: it is written to the staging name,
/// renamed into place, and only then is the record stored.
pub open spec fn content_actions(path: Seq<u8>, data: Seq<u8>, record: FileInfoView) -> Seq<ActionView> {
    seq![
        ActionView::Write { path: staging_of(path), data },
        ActionView::Rename { from: staging_of(path), to: path },
        ActionView::PutInfo { path, info: record },
    ]
}

/// What `save` answers, given the digest of the content.
pub open spec fn save_plan(
    records: Records,
    sessions: Sessions,
    ctx: ContextView,
    path: Seq<u8>,
    mimetype: Seq<char>,
    data: Seq<u8>,
    overwrite: bool,
    digest: Seq<u8>,
) -> PlanView {
    match save_refusal(records, sessions, ctx, path, mimetype, overwrite) {
        Some(code) => PlanView::refusal(code),
        None => PlanView::of(
            content_actions(
                path,
                data,
                written_record(record_at(records, path), ctx, mimetype, data.len() as u64, digest),
            ),
        ),
    }
}

/// Whether `mimetype` is one that no file may have.
pub fn is_reserved_mimetype(mimetype: &String) -> (yes: bool)
    ensures
        yes == reserved_mimetype(mimetype@),
{
    if mimetype.as_str().is_empty() {
        return true;
    }
    let sentinel = String::from_str(MIMETYPE_DIRECTORY);
    *mimetype == sentinel
}

/// Whether the node that holds `path` under the root `root` is a
/// directory, by the records in `store`.
pub fn has_directory_parent(store: &Snapshot, root: &str, path: &String) -> (yes: bool)
    ensures
        yes == parent_is_directory(store@, utf8(root@), utf8(path@)),
{
    let parent = holder_path(root, path);
    match store.get(parent.as_str()) {
        Some(info) => info.is_dir(),
        None => false,
    }
}

/// Checks whether content may be saved at `path`.
pub fn check_save(
    ctx: &Context,
    store: &Snapshot,
    uploads: &UploadTable,
    path: &String,
    mimetype: &String,
    overwrite: bool,
) -> (checked: Result<(), Error>)
    ensures
        code_of(checked) == save_refusal(store@, uploads@, ctx@, utf8(path@), mimetype@, overwrite),
{
    match validate_path(ctx.root.as_str(), path) {
        Err(e) => {
            return Err(e);
        },
        Ok(_) => {},
    }
    if !check_permission(&ctx.caller, path, Capability::Write, ctx.root.as_str(), store) {
        return Err(Error::new(ERROR_PERMISSION_DENIED, "Permission denied"));
    }
    if is_reserved_mimetype(mimetype) {
        return Err(Error::new(ERROR_INVALID_MIMETYPE, "Invalid mimetype"));
    }
    let running = match uploads.get(path.as_str()) {
        Some(session) => !session.is_expired(ctx.now),
        None => false,
    };
    if running {
        return Err(Error::new(ERROR_ALREADY_EXISTS, "File already exists"));
    }
    match store.get(path.as_str()) {
        Some(_) => {
            if !overwrite {
                return Err(Error::new(ERROR_ALREADY_EXISTS, "File already exists"));
            }
        },
        None => {
            if !has_directory_parent(store, ctx.root.as_str(), path) {
                return Err(Error::new(ERROR_NOT_FOUND, "Parent directory not found"));
            }
        },
    }
    Ok(())
}

/// The record of a file after content of `size` bytes with the digest
/// `digest` was written to it.
pub fn record_written(
    existing: Option<&FileInfo>,
    ctx: &Context,
    mimetype: String,
    size: u64,
    digest: [u8; 32],
) -> (record: FileInfo)
    ensures
        record@ == written_record(
            match existing {
                Some(old) => Some(old@),
                None => None,
            },
            ctx@,
            mimetype@,
            size,
            digest@,
        ),
{
    match existing {
        Some(old) => FileInfo {
            size,
            creator: old.creator,
            created_at: old.created_at,
            updater: ctx.caller,
            updated_at: ctx.now,
            mimetype,
            manageable: copy_principals(&old.manageable),
            readable: copy_principals(&old.readable),
            writable: copy_principals(&old.writable),
            sha256: Some(digest),
            signature: None,
        },
        None => {
            let record = FileInfo {
                size,
                creator: ctx.caller,
                created_at: ctx.now,
                updater: ctx.caller,
                updated_at: ctx.now,
                mimetype,
                manageable: Vec::new(),
                readable: Vec::new(),
                writable: Vec::new(),
                sha256: Some(digest),
                signature: None,
            };
            assert(record@.manageable =~= Seq::empty());
            assert(record@.readable =~= Seq::empty());
            assert(record@.writable =~= Seq::empty());
            record
        },
    }
}

/// The actions that put `data` in place at `path` and then store `record` for it.
pub fn write_content(path: String, data: Vec<u8>, record: FileInfo) -> (actions: Vec<Action>)
    ensures
        action_views(actions@) == content_actions(utf8(path@), data@, record@),
{
    let staging = temp_path(&path);
    let mut actions: Vec<Action> = Vec::new();
    actions.push(Action::Write { path: staging.clone(), data });
    actions.push(Action::Rename { from: staging, to: path.clone() });
    actions.push(Action::PutInfo { path, info: record });
    assert(action_views(actions@) =~= content_actions(utf8(path@), data@, record@));
    actions
}

/// Saves `data` as the content of the file `path`, with the media type
/// `mimetype`. A file that is there is replaced only where `overwrite` is set.
pub fn save(
    ctx: &Context,
    store: &Snapshot,
    uploads: &UploadTable,
    path: String,
    mimetype: String,
    data: Vec<u8>,
    overwrite: bool,
) -> (plan: Plan)
    ensures
        plan@ == save_plan(
            store@,
            uploads@,
            ctx@,
            utf8(path@),
            mimetype@,
            data@,
            overwrite,
            sha256_of(data@),
        ),
{
    match check_save(ctx, store, uploads, &path, &mimetype, overwrite) {
        Err(e) => Plan::refuse(e),
        Ok(_) => {
            let digest = sha256(data.as_slice());
            let record = record_written(
                store.get(path.as_str()),
                ctx,
                mimetype,
                data.len() as u64,
                digest,
            );
            Plan::accept(write_content(path, data, record))
        },
    }
}

/// Why reading the node `path` is refused, if it is: an invalid path, a
/// caller who may not read, or no node there.
pub open spec fn read_refusal(records: Records, ctx: ContextView, path: Seq<u8>) -> Option<u32> {
    if !valid_path(ctx.root, path) {
        Some(ERROR_INVALID_PATH)
    } else if !permitted(records, ctx.root, ctx.caller, path, Capability::Read) {
        Some(ERROR_PERMISSION_DENIED)
    } else if !records.contains_key(path) {
        Some(ERROR_NOT_FOUND)
    } else {
        None
    }
}

/// Checks whether the caller may read the node `path`, and hands out its record.
pub fn check_read<'a>(ctx: &Context, store: &'a Snapshot, path: &String) -> (found: Result<&'a FileInfo, Error>)
    ensures
        code_of(found) == read_refusal(store@, ctx@, utf8(path@)),
        found matches Ok(info) ==> info@ == store@[utf8(path@)],
{
    match validate_path(ctx.root.as_str(), path) {
        Err(e) => {
            return Err(e);
        },
        Ok(_) => {},
    }
    if !check_permission(&ctx.caller, path, Capability::Read, ctx.root.as_str(), store) {
        return Err(Error::new(ERROR_PERMISSION_DENIED, "Permission denied"));
    }
    match store.get(path.as_str()) {
        Some(info) => Ok(info),
        None => Err(Error::new(ERROR_NOT_FOUND, "File not found")),
    }
}

/// What one ranged read returns of the bytes that are `available` from the
/// offset on: all of them, but no more than [`MAX_READ_SIZE`].
pub open spec fn piece(available: Seq<u8>) -> Seq<u8> {
    if available.len() <= MAX_READ_SIZE {
        available
    } else {
        available.take(MAX_READ_SIZE as int)
    }
}

/// The reply to a ranged read at `start_at` that returned `chunk`, for a
/// file with the record `info`. The digest goes with the piece that reaches
/// the end of the content, and with no other.
pub open spec fn download_of(info: FileInfoView, start_at: u64, chunk: Seq<u8>) -> DownloadView {
    let end = (start_at + chunk.len()) as u64;
    DownloadView {
        size: info.size,
        downloaded_at: end,
        chunk,
        sha256: if end == info.size {
            info.sha256
        } else {
            None
        },
    }
}

/// Reads a piece of the file `path`. `available` is the content from
/// `start_at` on, at least as far as one piece reaches.
///
/// A piece that would end beyond the range of 64 bits cannot come from a
/// volume, and is answered with [`ERROR_UNKNOWN`].
pub fn load(ctx: &Context, store: &Snapshot, path: String, start_at: u64, available: Vec<u8>) -> (reply:
    Result<Download, Error>)
    ensures
        match read_refusal(store@, ctx@, utf8(path@)) {
            Some(code) => code_of(reply) == Some(code),
            None => if start_at + piece(available@).len() > u64::MAX {
                code_of(reply) == Some(ERROR_UNKNOWN)
            } else {
                reply matches Ok(download) && download@ == download_of(
                    store@[utf8(path@)],
                    start_at,
                    piece(available@),
                )
            },
        },
{
    let info = match check_read(ctx, store, &path) {
        Err(e) => {
            return Err(e);
        },
        Ok(info) => info,
    };
    let mut chunk = available;
    if chunk.len() > MAX_READ_SIZE {
        chunk.truncate(MAX_READ_SIZE);
    }
    assert(chunk@ =~= piece(available@));
    let read = chunk.len() as u64;
    if read > u64::MAX - start_at {
        return Err(Error::new(ERROR_UNKNOWN, "Read beyond the end of the address range"));
    }
    let downloaded_at = start_at + read;
    Ok(
        Download {
            size: info.size,
            downloaded_at,
            chunk,
            sha256: if info.size == downloaded_at {
                info.sha256
            } else {
                None
            },
        },
    )
}

/// What to reply when the content of a file could not be read. `missing`
/// says that the volume found no file at the path, `detail` is what the
/// volume reported. A file that is not there is [`ERROR_NOT_FOUND`], every
/// other failure [`ERROR_UNKNOWN`] with the volume's own words.
pub fn read_failure(missing: bool, detail: String) -> (reply: Error)
    ensures
        reply.code == if missing {
            ERROR_NOT_FOUND
        } else {
            ERROR_UNKNOWN
        },
        !missing ==> reply.message@ == detail@,
{
    if missing {
        Error::new(ERROR_NOT_FOUND, "File not found")
    } else {
        Error::unknown(detail)
    }
}

/// What `delete` answers: the content is removed, then the record.
pub open spec fn delete_plan(records: Records, ctx: ContextView, path: Seq<u8>) -> PlanView {
    if !valid_path(ctx.root, path) {
        PlanView::refusal(ERROR_INVALID_PATH)
    } else if !permitted(records, ctx.root, ctx.caller, path, Capability::Write) {
        PlanView::refusal(ERROR_PERMISSION_DENIED)
    } else {
        PlanView::of(seq![ActionView::RemoveFile { path }, ActionView::RemoveInfo { path }])
    }
}

/// Deletes the file `path`.
pub fn delete(ctx: &Context, store: &Snapshot, path: String) -> (plan: Plan)
    ensures
        plan@ == delete_plan(store@, ctx@, utf8(path@)),
{
    match validate_path(ctx.root.as_str(), &path) {
        Err(e) => {
            return Plan::refuse(e);
        },
        Ok(_) => {},
    }
    if !check_permission(&ctx.caller, &path, Capability::Write, ctx.root.as_str(), store) {
        return Plan::refuse(Error::new(ERROR_PERMISSION_DENIED, "Permission denied"));
    }
    let mut actions: Vec<Action> = Vec::new();
    actions.push(Action::RemoveFile { path: path.clone() });
    actions.push(Action::RemoveInfo { path });
    assert(action_views(actions@) =~= seq![
        ActionView::RemoveFile { path: utf8(path@) },
        ActionView::RemoveInfo { path: utf8(path@) },
    ]);
    Plan::accept(actions)
}

/// The record of a directory that `ctx.caller` creates at `ctx.now`, with
/// `list` as each of its three access lists.
pub open spec fn directory_record(ctx: ContextView, list: Seq<Seq<u8>>) -> FileInfoView {
    FileInfoView {
        size: 0,
        creator: ctx.caller,
        created_at: ctx.now,
        updater: ctx.caller,
        updated_at: ctx.now,
        mimetype: MIMETYPE_DIRECTORY@,
        manageable: list,
        readable: list,
        writable: list,
        sha256: None,
        signature: None,
    }
}

/// What `create_directory` answers: the directory is created, then its record is stored.
pub open spec fn create_directory_plan(records: Records, ctx: ContextView, path: Seq<u8>) -> PlanView {
    if !valid_path(ctx.root, path) {
        PlanView::refusal(ERROR_INVALID_PATH)
    } else if !permitted(records, ctx.root, ctx.caller, path, Capability::Write) {
        PlanView::refusal(ERROR_PERMISSION_DENIED)
    } else if records.contains_key(path) {
        PlanView::refusal(ERROR_ALREADY_EXISTS)
    } else if !parent_is_directory(records, ctx.root, path) {
        PlanView::refusal(ERROR_NOT_FOUND)
    } else {
        PlanView::of(
            seq![
                ActionView::CreateDir { path },
                ActionView::PutInfo { path, info: directory_record(ctx, Seq::empty()) },
            ],
        )
    }
}

/// The record of a directory that the caller creates now. Where `owned` is
/// set the caller is named in each of its access lists, else nobody is.
pub fn record_directory(ctx: &Context, owned: bool) -> (record: FileInfo)
    ensures
        record@ == directory_record(
            ctx@,
            if owned {
                seq![ctx.caller@]
            } else {
                Seq::empty()
            },
        ),
{
    let mut manageable: Vec<Principal> = Vec::new();
    let mut readable: Vec<Principal> = Vec::new();
    let mut writable: Vec<Principal> = Vec::new();
    if owned {
        manageable.push(ctx.caller);
        readable.push(ctx.caller);
        writable.push(ctx.caller);
    }
    let record = FileInfo {
        size: 0,
        creator: ctx.caller,
        created_at: ctx.now,
        updater: ctx.caller,
        updated_at: ctx.now,
        mimetype: String::from_str(MIMETYPE_DIRECTORY),
        manageable,
        readable,
        writable,
        sha256: None,
        signature: None,
    };
    proof {
        let list = if owned {
            seq![ctx.caller@]
        } else {
            Seq::empty()
        };
        assert(record@.manageable =~= list);
        assert(record@.readable =~= list);
        assert(record@.writable =~= list);
    }
    record
}

/// Creates the directory `path`.
pub fn create_directory(ctx: &Context, store: &Snapshot, path: String) -> (plan: Plan)
    ensures
        plan@ == create_directory_plan(store@, ctx@, utf8(path@)),
{
    match validate_path(ctx.root.as_str(), &path) {
        Err(e) => {
            return Plan::refuse(e);
        },
        Ok(_) => {},
    }
    if !check_permission(&ctx.caller, &path, Capability::Write, ctx.root.as_str(), store) {
        return Plan::refuse(Error::new(ERROR_PERMISSION_DENIED, "Permission denied"));
    }
    if store.get(path.as_str()).is_some() {
        return Plan::refuse(Error::new(ERROR_ALREADY_EXISTS, "Directory already exists"));
    }
    if !has_directory_parent(store, ctx.root.as_str(), &path) {
        return Plan::refuse(Error::new(ERROR_NOT_FOUND, "Parent directory not found"));
    }
    let record = record_directory(ctx, false);
    let mut actions: Vec<Action> = Vec::new();
    actions.push(Action::CreateDir { path: path.clone() });
    actions.push(Action::PutInfo { path, info: record });
    assert(action_views(actions@) =~= seq![
        ActionView::CreateDir { path: utf8(path@) },
        ActionView::PutInfo { path: utf8(path@), info: directory_record(ctx@, Seq::empty()) },
    ]);
    Plan::accept(actions)
}

/// What `delete_directory` answers: the directory is removed, then its record.
pub open spec fn delete_directory_plan(
    records: Records,
    ctx: ContextView,
    path: Seq<u8>,
    recursively: bool,
) -> PlanView {
    match read_refusal(records, ctx, path) {
        Some(code) => PlanView::refusal(code),
        None => PlanView::of(
            seq![ActionView::RemoveDir { path, recursively }, ActionView::RemoveInfo { path }],
        ),
    }
}

/// Deletes the directory `path`: with all that is in it where `recursively`
/// is set, else only if it is empty. It takes the capability to read.
pub fn delete_directory(ctx: &Context, store: &Snapshot, path: String, recursively: bool) -> (plan: Plan)
    ensures
        plan@ == delete_directory_plan(store@, ctx@, utf8(path@), recursively),
{
    match check_read(ctx, store, &path) {
        Err(e) => {
            return Plan::refuse(e);
        },
        Ok(_) => {},
    }
    let mut actions: Vec<Action> = Vec::new();
    actions.push(Action::RemoveDir { path: path.clone(), recursively });
    actions.push(Action::RemoveInfo { path });
    assert(action_views(actions@) =~= seq![
        ActionView::RemoveDir { path: utf8(path@), recursively },
        ActionView::RemoveInfo { path: utf8(path@) },
    ]);
    Plan::accept(actions)
}

/// The metadata of the node `path`, without its access lists and its signature.
pub fn get_info(ctx: &Context, store: &Snapshot, path: String) -> (reply: Result<Info, Error>)
    ensures
        code_of(reply) == read_refusal(store@, ctx@, utf8(path@)),
        reply matches Ok(info) ==> info@ == store@[utf8(path@)].info(),
{
    match check_read(ctx, store, &path) {
        Err(e) => Err(e),
        Ok(info) => Ok(
            Info {
                size: info.size,
                creator: info.creator,
                created_at: info.created_at,
                updater: info.updater,
                updated_at: info.updated_at,
                mimetype: info.mimetype.clone(),
                sha256: info.sha256,
            },
        ),
    }
}

/// What the caller may do with the node `path`. There has to be a node:
/// else the reply is [`ERROR_NOT_FOUND`], whatever the caller may do above it.
pub fn has_permission(ctx: &Context, store: &Snapshot, path: String) -> (reply: Result<Permission, Error>)
    ensures
        code_of(reply) == if !valid_path(ctx@.root, utf8(path@)) {
            Some(ERROR_INVALID_PATH)
        } else if !store@.contains_key(utf8(path@)) {
            Some(ERROR_NOT_FOUND)
        } else {
            None
        },
        reply matches Ok(held) ==> {
            &&& held.manageable == permitted(
                store@,
                ctx@.root,
                ctx@.caller,
                utf8(path@),
                Capability::Manage,
            )
            &&& held.readable == permitted(store@, ctx@.root, ctx@.caller, utf8(path@), Capability::Read)
            &&& held.writable == permitted(
                store@,
                ctx@.root,
                ctx@.caller,
                utf8(path@),
                Capability::Write,
            )
        },
{
    match validate_path(ctx.root.as_str(), &path) {
        Err(e) => {
            return Err(e);
        },
        Ok(_) => {},
    }
    if store.get(path.as_str()).is_none() {
        return Err(Error::new(ERROR_NOT_FOUND, "File not found"));
    }
    let root = ctx.root.as_str();
    Ok(
        Permission {
            manageable: check_permission(&ctx.caller, &path, Capability::Manage, root, store),
            readable: check_permission(&ctx.caller, &path, Capability::Read, root, store),
            writable: check_permission(&ctx.caller, &path, Capability::Write, root, store),
        },
    )
}

/// Why a change to the access lists of the node `path` is refused, if it
/// is: an invalid path, a caller who may not manage, or no node there.
pub open spec fn manage_refusal(records: Records, ctx: ContextView, path: Seq<u8>) -> Option<u32> {
    if !valid_path(ctx.root, path) {
        Some(ERROR_INVALID_PATH)
    } else if !permitted(records, ctx.root, ctx.caller, path, Capability::Manage) {
        Some(ERROR_PERMISSION_DENIED)
    } else if !records.contains_key(path) {
        Some(ERROR_NOT_FOUND)
    } else {
        None
    }
}

/// What `add_permission` answers: the record is stored with `who` granted
/// each capability whose flag is set.
pub open spec fn add_permission_plan(
    records: Records,
    ctx: ContextView,
    path: Seq<u8>,
    who: Seq<u8>,
    manageable: bool,
    readable: bool,
    writable: bool,
) -> PlanView {
    match manage_refusal(records, ctx, path) {
        Some(code) => PlanView::refusal(code),
        None => PlanView::of(
            seq![
                ActionView::PutInfo {
                    path,
                    info: records[path].granting(who, manageable, readable, writable),
                },
            ],
        ),
    }
}

/// What `remove_permission` answers: the record is stored with `who`
/// revoked each capability whose flag is set.
pub open spec fn remove_permission_plan(
    records: Records,
    ctx: ContextView,
    path: Seq<u8>,
    who: Seq<u8>,
    manageable: bool,
    readable: bool,
    writable: bool,
) -> PlanView {
    match manage_refusal(records, ctx, path) {
        Some(code) => PlanView::refusal(code),
        None => PlanView::of(
            seq![
                ActionView::PutInfo {
                    path,
                    info: records[path].revoking(who, manageable, readable, writable),
                },
            ],
        ),
    }
}

/// Checks whether the caller may change the access lists of the node
/// `path`, and hands out a copy of its record.
pub fn check_manage(ctx: &Context, store: &Snapshot, path: &String) -> (found: Result<FileInfo, Error>)
    ensures
        code_of(found) == manage_refusal(store@, ctx@, utf8(path@)),
        found matches Ok(info) ==> info@ == store@[utf8(path@)],
{
    match validate_path(ctx.root.as_str(), path) {
        Err(e) => {
            return Err(e);
        },
        Ok(_) => {},
    }
    if !check_permission(&ctx.caller, path, Capability::Manage, ctx.root.as_str(), store) {
        return Err(Error::new(ERROR_PERMISSION_DENIED, "Permission denied"));
    }
    match store.get(path.as_str()) {
        Some(info) => Ok(info.duplicate()),
        None => Err(Error::new(ERROR_NOT_FOUND, "File not found")),
    }
}

/// Grants `principal` each capability on the node `path` whose flag is set.
/// A capability that it holds already stays as it is.
pub fn add_permission(
    ctx: &Context,
    store: &Snapshot,
    path: String,
    principal: Principal,
    manageable: bool,
    readable: bool,
    writable: bool,
) -> (plan: Plan)
    ensures
        plan@ == add_permission_plan(
            store@,
            ctx@,
            utf8(path@),
            principal@,
            manageable,
            readable,
            writable,
        ),
{
    let mut info = match check_manage(ctx, store, &path) {
        Err(e) => {
            return Plan::refuse(e);
        },
        Ok(info) => info,
    };
    if manageable {
        grant(&mut info.manageable, principal);
    }
    if readable {
        grant(&mut info.readable, principal);
    }
    if writable {
        grant(&mut info.writable, principal);
    }
    let mut actions: Vec<Action> = Vec::new();
    actions.push(Action::PutInfo { path, info });
    assert(action_views(actions@) =~= seq![
        ActionView::PutInfo {
            path: utf8(path@),
            info: store@[utf8(path@)].granting(principal@, manageable, readable, writable),
        },
    ]);
    Plan::accept(actions)
}

/// Revokes from `principal` each capability on the node `path` whose flag
/// is set. A capability that it does not hold stays as it is.
pub fn remove_permission(
    ctx: &Context,
    store: &Snapshot,
    path: String,
    principal: Principal,
    manageable: bool,
    readable: bool,
    writable: bool,
) -> (plan: Plan)
    ensures
        plan@ == remove_permission_plan(
            store@,
            ctx@,
            utf8(path@),
            principal@,
            manageable,
            readable,
            writable,
        ),
{
    let mut info = match check_manage(ctx, store, &path) {
        Err(e) => {
            return Plan::refuse(e);
        },
        Ok(info) => info,
    };
    if manageable {
        revoke(&mut info.manageable, principal);
    }
    if readable {
        revoke(&mut info.readable, principal);
    }
    if writable {
        revoke(&mut info.writable, principal);
    }
    let mut actions: Vec<Action> = Vec::new();
    actions.push(Action::PutInfo { path, info });
    assert(action_views(actions@) =~= seq![
        ActionView::PutInfo {
            path: utf8(path@),
            info: store@[utf8(path@)].revoking(principal@, manageable, readable, writable),
        },
    ]);
    Plan::accept(actions)
}

/// What `init_canistorage` answers: the root gets the record of a directory
/// on which the caller holds every capability.
pub open spec fn init_plan(records: Records, ctx: ContextView) -> PlanView {
    if records.contains_key(ctx.root) {
        PlanView::refusal(ERROR_ALREADY_INITIALIZED)
    } else if ctx.caller == seq![4u8] {
        PlanView::refusal(ERROR_PERMISSION_DENIED)
    } else {
        PlanView::of(
            seq![ActionView::PutInfo { path: ctx.root, info: directory_record(ctx, seq![ctx.caller]) }],
        )
    }
}

/// Makes the caller the owner of the store. It works once, and not for the
/// anonymous identity.
pub fn init_canistorage(ctx: &Context, store: &Snapshot) -> (plan: Plan)
    ensures
        plan@ == init_plan(store@, ctx@),
{
    if store.get(ctx.root.as_str()).is_some() {
        return Plan::refuse(Error::new(ERROR_ALREADY_INITIALIZED, "Already initialized"));
    }
    if ctx.caller.is_anonymous() {
        return Plan::refuse(Error::new(ERROR_PERMISSION_DENIED, "Anonymous is not allowed"));
    }
    let record = record_directory(ctx, true);
    let mut actions: Vec<Action> = Vec::new();
    actions.push(Action::PutInfo { path: ctx.root.clone(), info: record });
    assert(action_views(actions@) =~= seq![
        ActionView::PutInfo { path: ctx@.root, info: directory_record(ctx@, seq![ctx.caller@]) },
    ]);
    Plan::accept(actions)
}

} // verus!
