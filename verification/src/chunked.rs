//! The requests that upload a file in pieces: begin, send, commit, cancel.
use crate::context::Context;
use crate::context::ContextView;
use crate::digest;
use crate::digest::sha256_of;
use crate::error::code_of;
use crate::error::Error;
use crate::error::ERROR_ALREADY_EXISTS;
use crate::error::ERROR_INVALID_HASH;
use crate::error::ERROR_INVALID_MIMETYPE;
use crate::error::ERROR_INVALID_PATH;
use crate::error::ERROR_INVALID_SEQUENCE;
use crate::error::ERROR_INVALID_SIZE;
use crate::error::ERROR_NOT_FOUND;
use crate::error::ERROR_PERMISSION_DENIED;
use crate::metadata::digest_view;
use crate::metadata::Capability;
use crate::metadata::FileInfo;
use crate::metadata::FileInfoView;
use crate::path::same_bytes;
use crate::path::staging_of;
use crate::path::temp_path;
use crate::path::utf8;
use crate::path::valid_path;
use crate::path::validate_path;
use crate::permission::check_permission;
use crate::permission::permitted;
use crate::plan::action_views;
use crate::plan::Action;
use crate::plan::ActionView;
use crate::plan::Plan;
use crate::plan::PlanView;
use crate::storage::content_actions;
use crate::storage::has_directory_parent;
use crate::storage::is_reserved_mimetype;
use crate::storage::parent_is_directory;
use crate::storage::record_at;
use crate::storage::record_written;
use crate::storage::reserved_mimetype;
use crate::storage::write_content;
use crate::storage::written_record;
use crate::store::Records;
use crate::store::Snapshot;
use crate::upload::chunk_views;
use crate::upload::expired;
use crate::upload::unexpired;
use crate::upload::SessionView;
use crate::upload::Sessions;
use crate::upload::UploadTable;
use crate::upload::Uploading;
use std::collections::HashMap;
use vstd::prelude::*;
use vstd::std_specs::hash::*;

verus! {

broadcast use vstd::std_specs::hash::group_hash_axioms;

/// Why an upload for `path` may not begin, if it may not: an invalid path,
/// a caller who may not write, a reserved media type, an upload that runs
/// for the path and has not expired, a node that is there and may not be
/// replaced, or a parent that is no directory.
pub open spec fn begin_refusal(
    records: Records,
    sessions: Sessions,
    ctx: ContextView,
    path: Seq<u8>,
    mimetype: Seq<char>,
    overwrite: bool,
) -> Option<u32> {
    if !valid_path(ctx.root, path) {
        Some(ERROR_INVALID_PATH)
    } else if !permitted(records, ctx.root, ctx.caller, path, Capability::Write) {
        Some(ERROR_PERMISSION_DENIED)
    } else if reserved_mimetype(mimetype) {
        Some(ERROR_INVALID_MIMETYPE)
    } else if unexpired(sessions, ctx.now).contains_key(path) {
        Some(ERROR_ALREADY_EXISTS)
    } else if records.contains_key(path) && !overwrite {
        Some(ERROR_ALREADY_EXISTS)
    } else if !parent_is_directory(records, ctx.root, path) {
        Some(ERROR_NOT_FOUND)
    } else {
        None
    }
}

/// Whether the request came as far as the table of uploads: the path, the
/// caller's capability and the media type were in order.
pub open spec fn begin_reached_table(code: Option<u32>) -> bool {
    code != Some(ERROR_INVALID_PATH) && code != Some(ERROR_PERMISSION_DENIED) && code != Some(
        ERROR_INVALID_MIMETYPE,
    )
}

/// An upload that has just begun: it belongs to the caller and holds nothing.
pub open spec fn fresh_session(ctx: ContextView, mimetype: Seq<char>) -> SessionView {
    SessionView {
        owner: ctx.caller,
        size: 0,
        updated_at: ctx.now,
        mimetype,
        chunks: Map::empty(),
    }
}

/// The uploads after a request to begin one for `path`. A request that
/// came as far as the table swept the expired uploads out of it, and one
/// that succeeded put a fresh upload in.
pub open spec fn sessions_after_begin(
    records: Records,
    sessions: Sessions,
    ctx: ContextView,
    path: Seq<u8>,
    mimetype: Seq<char>,
    overwrite: bool,
) -> Sessions {
    let code = begin_refusal(records, sessions, ctx, path, mimetype, overwrite);
    if code is None {
        unexpired(sessions, ctx.now).insert(path, fresh_session(ctx, mimetype))
    } else if begin_reached_table(code) {
        unexpired(sessions, ctx.now)
    } else {
        sessions
    }
}

/// Begins an upload of content for the file `path`.
pub fn begin_upload(
    ctx: &Context,
    store: &Snapshot,
    uploads: &mut UploadTable,
    path: String,
    mimetype: String,
    overwrite: bool,
) -> (reply: Result<(), Error>)
    ensures
        code_of(reply) == begin_refusal(store@, old(uploads)@, ctx@, utf8(path@), mimetype@, overwrite),
        final(uploads)@ == sessions_after_begin(
            store@,
            old(uploads)@,
            ctx@,
            utf8(path@),
            mimetype@,
            overwrite,
        ),
{
    match validate_path(ctx.root.as_str(), &path) {
        Err(e) => {
            return Err(e);
        },
        Ok(_) => {},
    }
    if !check_permission(&ctx.caller, &path, Capability::Write, ctx.root.as_str(), store) {
        return Err(Error::new(ERROR_PERMISSION_DENIED, "Permission denied"));
    }
    if is_reserved_mimetype(&mimetype) {
        return Err(Error::new(ERROR_INVALID_MIMETYPE, "Invalid mimetype"));
    }
    uploads.sweep(ctx.now);
    if uploads.get(path.as_str()).is_some() {
        return Err(Error::new(ERROR_ALREADY_EXISTS, "File already exists"));
    }
    if store.get(path.as_str()).is_some() && !overwrite {
        return Err(Error::new(ERROR_ALREADY_EXISTS, "File already exists"));
    }
    if !has_directory_parent(store, ctx.root.as_str(), &path) {
        return Err(Error::new(ERROR_NOT_FOUND, "Parent directory not found"));
    }
    let session = Uploading {
        owner: ctx.caller,
        size: 0,
        updated_at: ctx.now,
        mimetype,
        chunk: HashMap::new(),
    };
    assert(session@.chunks =~= Map::<u64, Seq<u8>>::empty());
    uploads.insert(path, session);
    Ok(())
}

/// The length of the piece that an upload holds at the offset `start`; 0 where it holds none.
pub open spec fn held_at(session: SessionView, start: u64) -> nat {
    if session.chunks.contains_key(start) {
        session.chunks[start].len()
    } else {
        0
    }
}

/// How many bytes an upload holds once a piece of `len` bytes has come in
/// at the offset `start`: what it held, and the new piece, less the piece
/// that stood at that offset before.
pub open spec fn size_after(session: SessionView, start: u64, len: nat) -> int {
    session.size + len - held_at(session, start)
}

/// Why a piece for the upload for `path` is refused, if it is: no upload
/// runs for the path, or it is not the caller's, or it has expired, or with
/// the piece it would hold more than 64 bits can count.
pub open spec fn send_refusal(sessions: Sessions, ctx: ContextView, path: Seq<u8>, start: u64, len: nat) -> Option<
    u32,
> {
    if !sessions.contains_key(path) {
        Some(ERROR_INVALID_SEQUENCE)
    } else if sessions[path].owner != ctx.caller {
        Some(ERROR_INVALID_SEQUENCE)
    } else if expired(sessions[path].updated_at, ctx.now) {
        Some(ERROR_PERMISSION_DENIED)
    } else if !(0 <= size_after(sessions[path], start, len) <= u64::MAX) {
        Some(ERROR_INVALID_SIZE)
    } else {
        None
    }
}

/// An upload after the piece `data` has come in at the offset `start`. The
/// piece takes the place of one that stood at that offset.
pub open spec fn grown(session: SessionView, now: u64, start: u64, data: Seq<u8>) -> SessionView {
    SessionView {
        size: size_after(session, start, data.len()) as u64,
        updated_at: now,
        chunks: session.chunks.insert(start, data),
        ..session
    }
}

/// Takes in the piece `data` of the upload for `path`, which starts at the
/// offset `start`, and replies how many bytes the upload now holds.
pub fn send_data(ctx: &Context, uploads: &mut UploadTable, path: String, start: u64, data: Vec<u8>) -> (reply:
    Result<u64, Error>)
    ensures
        code_of(reply) == send_refusal(old(uploads)@, ctx@, utf8(path@), start, data@.len()),
        match reply {
            Ok(size) => {
                &&& size == size_after(old(uploads)@[utf8(path@)], start, data@.len())
                &&& final(uploads)@ == old(uploads)@.insert(
                    utf8(path@),
                    grown(old(uploads)@[utf8(path@)], ctx.now, start, data@),
                )
            },
            Err(_) => final(uploads)@ == old(uploads)@,
        },
{
    let size = match uploads.get(path.as_str()) {
        None => {
            return Err(Error::new(ERROR_INVALID_SEQUENCE, "Invalid sequence"));
        },
        Some(session) => {
            if !session.owner.same(&ctx.caller) {
                return Err(Error::new(ERROR_INVALID_SEQUENCE, "Invalid sequence"));
            }
            if session.is_expired(ctx.now) {
                return Err(Error::new(ERROR_PERMISSION_DENIED, "session expired"));
            }
            let held: u64 = match session.chunk.get(&start) {
                Some(piece) => piece.len() as u64,
                None => 0,
            };
            let total: u128 = session.size as u128 + data.len() as u128;
            if total < held as u128 || total - held as u128 > u64::MAX as u128 {
                return Err(Error::new(ERROR_INVALID_SIZE, "Invalid size"));
            }
            (total - held as u128) as u64
        },
    };
    let ghost before = uploads@[utf8(path@)];
    match uploads.remove(path.as_str()) {
        Some(mut session) => {
            let _ = session.chunk.insert(start, data);
            session.size = size;
            session.updated_at = ctx.now;
            assert(session@.chunks =~= before.chunks.insert(start, data@));
            uploads.insert(path, session);
            assert(uploads@ =~= old(uploads)@.insert(utf8(path@), grown(before, ctx.now, start, data@)));
        },
        None => {},
    }
    Ok(size)
}

/// Why the upload for `path` is not dropped, if it is not: no upload runs
/// for the path, or it is not the caller's.
pub open spec fn cancel_refusal(sessions: Sessions, ctx: ContextView, path: Seq<u8>) -> Option<u32> {
    if !sessions.contains_key(path) || sessions[path].owner != ctx.caller {
        Some(ERROR_INVALID_SEQUENCE)
    } else {
        None
    }
}

/// Drops the upload for `path`.
pub fn cancel_upload(ctx: &Context, uploads: &mut UploadTable, path: String) -> (reply: Result<(), Error>)
    ensures
        code_of(reply) == cancel_refusal(old(uploads)@, ctx@, utf8(path@)),
        final(uploads)@ == if reply is Ok {
            old(uploads)@.remove(utf8(path@))
        } else {
            old(uploads)@
        },
{
    let owned = match uploads.get(path.as_str()) {
        Some(session) => session.owner.same(&ctx.caller),
        None => false,
    };
    if !owned {
        return Err(Error::new(ERROR_INVALID_SEQUENCE, "Invalid sequence"));
    }
    let _ = uploads.remove(path.as_str());
    Ok(())
}

/// The content that the pieces give from the offset `from` on, up to `size`
/// bytes in all: the piece at `from`, then the piece that starts where it
/// ends, and so on. It ends where no piece starts, where the piece is
/// empty, or where the piece would reach beyond `size`.
pub open spec fn assembled(chunks: Map<u64, Seq<u8>>, from: u64, size: u64) -> Seq<u8>
    decreases size - from,
{
    if from < size && chunks.contains_key(from) && 0 < chunks[from].len() <= size - from {
        chunks[from] + assembled(chunks, (from + chunks[from].len()) as u64, size)
    } else {
        Seq::empty()
    }
}

/// Joins the pieces of an upload, from the offset 0 on, as far as they line up.
pub fn assemble(chunks: &HashMap<u64, Vec<u8>>, size: u64) -> (joined: Vec<u8>)
    ensures
        joined@ == assembled(chunk_views(chunks@), 0, size),
        joined@.len() <= size,
{
    let ghost pieces = chunk_views(chunks@);
    let mut joined: Vec<u8> = Vec::new();
    let mut at: u64 = 0;
    let mut open = true;
    assert(joined@ + assembled(pieces, 0, size) =~= assembled(pieces, 0, size));
    while open && at < size
        invariant
            pieces == chunk_views(chunks@),
            at <= size,
            joined@.len() == at,
            open ==> assembled(pieces, 0, size) == joined@ + assembled(pieces, at, size),
            !open ==> assembled(pieces, 0, size) == joined@,
        decreases size - at + (if open {
            1int
        } else {
            0int
        }),
    {
        match chunks.get(&at) {
            None => {
                assert(joined@ + Seq::<u8>::empty() =~= joined@);
                open = false;
            },
            Some(piece) => {
                assert(pieces.contains_key(at) && pieces[at] == piece@);
                if piece.len() == 0 || piece.len() as u64 > size - at {
                    assert(joined@ + Seq::<u8>::empty() =~= joined@);
                    open = false;
                } else {
                    let ghost so_far = joined@;
                    let mut i: usize = 0;
                    while i < piece.len()
                        invariant
                            i <= piece.len(),
                            joined@ == so_far + piece@.subrange(0, i as int),
                        decreases piece.len() - i,
                    {
                        joined.push(piece[i]);
                        assert(joined@ =~= so_far + piece@.subrange(0, i + 1));
                        i += 1;
                    }
                    assert(piece@.subrange(0, piece@.len() as int) =~= piece@);
                    assert((so_far + piece@) + assembled(pieces, (at + piece@.len()) as u64, size)
                        =~= so_far + (piece@ + assembled(pieces, (at + piece@.len()) as u64, size)));
                    at = at + piece.len() as u64;
                }
            },
        }
    }
    proof {
        if open {
            assert(joined@ + Seq::<u8>::empty() =~= joined@);
        }
    }
    joined
}

/// Why the upload for `path` is not committed, if it is not: no upload runs
/// for the path, or it is not the caller's, or it has expired, or it does not
/// hold as many bytes as were declared.
pub open spec fn commit_refusal(sessions: Sessions, ctx: ContextView, path: Seq<u8>, size: u64) -> Option<u32> {
    if !sessions.contains_key(path) {
        Some(ERROR_INVALID_SEQUENCE)
    } else if sessions[path].owner != ctx.caller {
        Some(ERROR_INVALID_SEQUENCE)
    } else if expired(sessions[path].updated_at, ctx.now) {
        Some(ERROR_PERMISSION_DENIED)
    } else if sessions[path].size != size {
        Some(ERROR_INVALID_SEQUENCE)
    } else {
        None
    }
}

/// What is done with the joined pieces of an upload. They are written to
/// the staging name in every case. Where they do not make up the declared
/// size, the reply is [`ERROR_INVALID_SIZE`]; where the caller gave a digest
/// and it is not theirs, [`ERROR_INVALID_HASH`]. Else they are renamed into
/// place, the record is stored, and the upload is dropped.
pub open spec fn seal_plan(
    existing: Option<FileInfoView>,
    ctx: ContextView,
    path: Seq<u8>,
    mimetype: Seq<char>,
    joined: Seq<u8>,
    size: u64,
    given: Option<Seq<u8>>,
    digest: Seq<u8>,
) -> PlanView {
    if joined.len() != size {
        PlanView {
            actions: seq![ActionView::Write { path: staging_of(path), data: joined }],
            reply: Some(ERROR_INVALID_SIZE),
        }
    } else if given is Some && given != Some(digest) {
        PlanView {
            actions: seq![ActionView::Write { path: staging_of(path), data: joined }],
            reply: Some(ERROR_INVALID_HASH),
        }
    } else {
        PlanView::of(
            content_actions(path, joined, written_record(existing, ctx, mimetype, size, digest)).push(
                ActionView::EndUpload { path },
            ),
        )
    }
}

/// What `commit_upload` answers, given the digest of the joined pieces.
pub open spec fn commit_plan(
    records: Records,
    sessions: Sessions,
    ctx: ContextView,
    path: Seq<u8>,
    size: u64,
    given: Option<Seq<u8>>,
    digest: Seq<u8>,
) -> PlanView {
    match commit_refusal(sessions, ctx, path, size) {
        Some(code) => PlanView::refusal(code),
        None => seal_plan(
            record_at(records, path),
            ctx,
            path,
            sessions[path].mimetype,
            assembled(sessions[path].chunks, 0, size),
            size,
            given,
            digest,
        ),
    }
}

/// Decides what is done with the joined pieces of an upload, of which
/// `digest` is the digest.
pub fn seal_upload(
    existing: Option<&FileInfo>,
    ctx: &Context,
    path: String,
    mimetype: String,
    joined: Vec<u8>,
    size: u64,
    given: Option<[u8; 32]>,
    digest: [u8; 32],
) -> (plan: Plan)
    ensures
        plan@ == seal_plan(
            match existing {
                Some(old) => Some(old@),
                None => None,
            },
            ctx@,
            utf8(path@),
            mimetype@,
            joined@,
            size,
            digest_view(given),
            digest@,
        ),
{
    let complete = joined.len() as u64 == size;
    let matches = match &given {
        Some(theirs) => same_bytes(theirs.as_slice(), digest.as_slice()),
        None => true,
    };
    if !complete || !matches {
        let staging = temp_path(&path);
        let mut actions: Vec<Action> = Vec::new();
        actions.push(Action::Write { path: staging, data: joined });
        let error = if !complete {
            Error::new(ERROR_INVALID_SIZE, "Invalid size")
        } else {
            Error::new(ERROR_INVALID_HASH, "Invalid hash")
        };
        let plan = Plan { actions, reply: Err(error) };
        assert(plan@.actions =~= seq![
            ActionView::Write { path: staging_of(utf8(path@)), data: joined@ },
        ]);
        return plan;
    }
    let record = record_written(existing, ctx, mimetype, size, digest);
    let mut actions = write_content(path.clone(), joined, record);
    let ghost written = action_views(actions@);
    actions.push(Action::EndUpload { path });
    assert(action_views(actions@) =~= written.push(ActionView::EndUpload { path: utf8(path@) }));
    Plan::accept(actions)
}

/// Commits the upload for `path`: its pieces become the content of the
/// file. `size` is the size the caller declares, `sha256` the digest it
/// expects, if it expects one.
pub fn commit_upload(
    ctx: &Context,
    store: &Snapshot,
    uploads: &UploadTable,
    path: String,
    size: u64,
    sha256: Option<[u8; 32]>,
) -> (plan: Plan)
    ensures
        plan@ == commit_plan(
            store@,
            uploads@,
            ctx@,
            utf8(path@),
            size,
            digest_view(sha256),
            sha256_of(assembled(uploads@[utf8(path@)].chunks, 0, size)),
        ),
{
    let session = match uploads.get(path.as_str()) {
        None => {
            return Plan::refuse(Error::new(ERROR_INVALID_SEQUENCE, "Invalid sequence"));
        },
        Some(session) => session,
    };
    if !session.owner.same(&ctx.caller) {
        return Plan::refuse(Error::new(ERROR_INVALID_SEQUENCE, "Invalid sequence"));
    }
    if session.is_expired(ctx.now) {
        return Plan::refuse(Error::new(ERROR_PERMISSION_DENIED, "transaction expired"));
    }
    if session.size != size {
        return Plan::refuse(Error::new(ERROR_INVALID_SEQUENCE, "Invalid sequence"));
    }
    let joined = assemble(&session.chunk, size);
    let digest = digest::sha256(joined.as_slice());
    seal_upload(
        store.get(path.as_str()),
        ctx,
        path,
        session.mimetype.clone(),
        joined,
        size,
        sha256,
        digest,
    )
}

} // verus!
