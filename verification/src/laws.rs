//! What holds of the store whatever it is asked: the laws that tie the
//! requests together.
use crate::chunked::begin_refusal;
use crate::chunked::commit_plan;
use crate::chunked::commit_refusal;
use crate::chunked::fresh_session;
use crate::chunked::send_refusal;
use crate::chunked::sessions_after_begin;
use crate::context::ContextView;
use crate::digest::sha256_of;
use crate::error::ERROR_ALREADY_EXISTS;
use crate::error::ERROR_PERMISSION_DENIED;
use crate::metadata::in_order;
use crate::metadata::lemma_with_principal;
use crate::metadata::lemma_without_principal;
use crate::metadata::with_principal;
use crate::metadata::without_principal;
use crate::metadata::Capability;
use crate::model::available;
use crate::model::carried_out;
use crate::model::lemma_perform_one;
use crate::model::lemma_perform_three;
use crate::model::lemma_perform_two;
use crate::model::load_reply;
use crate::model::sound_file;
use crate::model::Volume;
use crate::path::holder_of;
use crate::path::last_slash;
use crate::path::lemma_last_slash;
use crate::path::valid_path;
use crate::path::SLASH;
use crate::path::staging_of;
use crate::permission::granted_at;
use crate::permission::lemma_permitted_on_walk;
use crate::permission::permitted;
use crate::permission::walk;
use crate::plan::ActionView;
use crate::storage::add_permission_plan;
use crate::storage::create_directory_plan;
use crate::storage::delete_directory_plan;
use crate::storage::delete_plan;
use crate::storage::directory_record;
use crate::storage::init_plan;
use crate::storage::manage_refusal;
use crate::storage::parent_is_directory;
use crate::storage::piece;
use crate::storage::read_refusal;
use crate::storage::record_at;
use crate::storage::remove_permission_plan;
use crate::storage::reserved_mimetype;
use crate::storage::save_plan;
use crate::storage::save_refusal;
use crate::storage::written_record;
use crate::storage::MAX_READ_SIZE;
use crate::store::Records;
use crate::upload::active;
use crate::upload::expired;
use crate::upload::unexpired;
use crate::upload::Sessions;
use vstd::prelude::*;

verus! {

/// What was saved is what is loaded. After a save that may replace what
/// was there, the file holds the content that was saved, and its record
/// tells the length and the digest of that content. Whoever may read the
/// file then is given, from the offset 0, the first piece of it: all of it
/// up to one MiB.
pub proof fn law_saved_content_is_loaded(
    v: Volume,
    ctx: ContextView,
    reader: ContextView,
    path: Seq<u8>,
    mimetype: Seq<char>,
    data: Seq<u8>,
)
    requires
        data.len() <= u64::MAX,
        save_plan(v.records, v.sessions, ctx, path, mimetype, data, true, sha256_of(data)).reply is None,
    ensures
        ({
            let plan = save_plan(v.records, v.sessions, ctx, path, mimetype, data, true, sha256_of(data));
            let after = carried_out(v, plan);
            &&& sound_file(after, path)
            &&& after.files[path] == data
            &&& after.records[path].info().size == data.len()
            &&& after.records[path].info().sha256 == Some(sha256_of(data))
            &&& after.records[path].info().mimetype == mimetype
            &&& read_refusal(after.records, reader, path) is None ==> {
                &&& load_reply(after, reader, path, 0) matches Ok(download)
                &&& download.chunk == piece(data)
                &&& download.size == data.len()
                &&& download.downloaded_at == piece(data).len()
            }
            &&& piece(data) == data.take(
                if data.len() <= MAX_READ_SIZE {
                    data.len() as int
                } else {
                    MAX_READ_SIZE as int
                },
            )
        }),
{
    let digest = sha256_of(data);
    let record = written_record(record_at(v.records, path), ctx, mimetype, data.len() as u64, digest);
    let staging = staging_of(path);
    lemma_perform_three(
        v,
        ActionView::Write { path: staging, data },
        ActionView::Rename { from: staging, to: path },
        ActionView::PutInfo { path, info: record },
    );
    let plan = save_plan(v.records, v.sessions, ctx, path, mimetype, data, true, digest);
    let after = carried_out(v, plan);
    assert(after.files[path] == data);
    assert(after.records[path] == record);
    assert(available(after, path, 0) =~= data);
    assert(data.take(data.len() as int) =~= data);
}

/// Granting twice is granting once: who is granted a place in a list a
/// second time leaves the list as the first grant made it. A list in order
/// then names them exactly once.
pub proof fn law_grant_is_idempotent(list: Seq<Seq<u8>>, who: Seq<u8>)
    ensures
        with_principal(with_principal(list, who), who) == with_principal(list, who),
        in_order(list) ==> exists|i: int|
            0 <= i < with_principal(list, who).len() && #[trigger] with_principal(list, who)[i] == who
                && forall|j: int|
                0 <= j < with_principal(list, who).len() && j != i ==> with_principal(list, who)[j] != who,
{
    lemma_with_principal(list, who);
    let granted = with_principal(list, who);
    if in_order(list) {
        let i = choose|i: int| 0 <= i < granted.len() && granted[i] == who;
        assert forall|j: int| 0 <= j < granted.len() && j != i implies granted[j] != who by {
            crate::principal::lemma_precedes_is_total_order(who, who, who);
            if j < i {
                assert(crate::principal::precedes(granted[j], granted[i]));
            } else {
                assert(crate::principal::precedes(granted[i], granted[j]));
            }
        }
        assert(granted[i] == who);
    }
}

/// Revoking from who is not named changes nothing, and who was revoked is
/// no longer named.
pub proof fn law_revoke_of_the_absent_changes_nothing(list: Seq<Seq<u8>>, who: Seq<u8>)
    ensures
        !list.contains(who) ==> without_principal(list, who) == list,
        !without_principal(list, who).contains(who),
        without_principal(without_principal(list, who), who) == without_principal(list, who),
{
    lemma_without_principal(list, who);
    lemma_without_principal(without_principal(list, who), who);
}

/// Granting every capability twice stores the record that granting them
/// once stores, with the access lists still in order. Revoking them from
/// who holds none stores the record as it was.
pub proof fn law_permissions_are_idempotent(
    records: Records,
    ctx: ContextView,
    path: Seq<u8>,
    who: Seq<u8>,
)
    requires
        manage_refusal(records, ctx, path) is None,
    ensures
        ({
            let before = records[path];
            let once = before.granting(who, true, true, true);
            let twice = once.granting(who, true, true, true);
            &&& add_permission_plan(records, ctx, path, who, true, true, true).actions == seq![
                ActionView::PutInfo { path, info: once },
            ]
            &&& twice == once
            &&& once.grants(who, Capability::Manage)
            &&& once.grants(who, Capability::Read)
            &&& once.grants(who, Capability::Write)
            &&& before.well_formed() ==> once.well_formed()
            &&& !before.manageable.contains(who) && !before.readable.contains(who)
                && !before.writable.contains(who) ==> remove_permission_plan(
                records,
                ctx,
                path,
                who,
                true,
                true,
                true,
            ).actions == seq![ActionView::PutInfo { path, info: before }]
        }),
{
    let before = records[path];
    lemma_with_principal(before.manageable, who);
    lemma_with_principal(before.readable, who);
    lemma_with_principal(before.writable, who);
    lemma_without_principal(before.manageable, who);
    lemma_without_principal(before.readable, who);
    lemma_without_principal(before.writable, who);
}

/// Permissions are inherited. What a node on the walk from `path` up to
/// the root grants is held on `path`: there is nothing that could deny it.
pub proof fn law_permission_is_inherited(
    records: Records,
    root: Seq<u8>,
    who: Seq<u8>,
    path: Seq<u8>,
    cap: Capability,
    i: int,
)
    requires
        0 <= i < walk(root, path).len(),
        granted_at(records, walk(root, path)[i], who, cap),
    ensures
        permitted(records, root, who, path, cap),
{
    lemma_permitted_on_walk(records, root, who, path, cap);
}

/// An upload that has expired is refused to its owner, whether a piece is
/// sent or the upload is committed.
pub proof fn law_expired_upload_is_refused(
    sessions: Sessions,
    ctx: ContextView,
    path: Seq<u8>,
    start: u64,
    len: nat,
    size: u64,
)
    requires
        sessions.contains_key(path),
        sessions[path].owner == ctx.caller,
        expired(sessions[path].updated_at, ctx.now),
    ensures
        send_refusal(sessions, ctx, path, start, len) == Some(ERROR_PERMISSION_DENIED),
        commit_refusal(sessions, ctx, path, size) == Some(ERROR_PERMISSION_DENIED),
{
}

/// An upload that has expired is in nobody's way. A request to begin an
/// upload for its path is answered as if it were not there, whoever asks,
/// and where the request succeeds the path has a fresh upload that belongs
/// to the caller. No expired upload is left in the table.
pub proof fn law_expired_upload_gives_way(
    records: Records,
    sessions: Sessions,
    ctx: ContextView,
    path: Seq<u8>,
    mimetype: Seq<char>,
    overwrite: bool,
)
    requires
        sessions.contains_key(path),
        expired(sessions[path].updated_at, ctx.now),
    ensures
        begin_refusal(records, sessions, ctx, path, mimetype, overwrite) == begin_refusal(
            records,
            sessions.remove(path),
            ctx,
            path,
            mimetype,
            overwrite,
        ),
        begin_refusal(records, sessions, ctx, path, mimetype, overwrite) is None ==> {
            let after = sessions_after_begin(records, sessions, ctx, path, mimetype, overwrite);
            &&& after.contains_key(path)
            &&& after[path] == fresh_session(ctx, mimetype)
            &&& forall|other: Seq<u8>| #[trigger]
                after.contains_key(other) ==> !expired(after[other].updated_at, ctx.now)
        },
{
    assert(!unexpired(sessions, ctx.now).contains_key(path));
    assert(!unexpired(sessions.remove(path), ctx.now).contains_key(path));
}

/// Two sets of records say the same of every path in `paths`.
pub open spec fn agree_on(a: Records, b: Records, paths: Seq<Seq<u8>>) -> bool {
    forall|i: int| 0 <= i < paths.len() ==> record_at(a, #[trigger] paths[i]) == record_at(b, paths[i])
}

/// What a caller may do with a node depends on the records of the nodes on
/// its walk, and on no other.
pub proof fn law_walk_decides_permission(
    a: Records,
    b: Records,
    root: Seq<u8>,
    who: Seq<u8>,
    path: Seq<u8>,
    cap: Capability,
)
    requires
        agree_on(a, b, walk(root, path)),
    ensures
        permitted(a, root, who, path, cap) == permitted(b, root, who, path, cap),
{
    lemma_permitted_on_walk(a, root, who, path, cap);
    lemma_permitted_on_walk(b, root, who, path, cap);
    let nodes = walk(root, path);
    assert forall|i: int| 0 <= i < nodes.len() implies granted_at(a, #[trigger] nodes[i], who, cap)
        == granted_at(b, nodes[i], who, cap) by {
        assert(record_at(a, nodes[i]) == record_at(b, nodes[i]));
    }
}

/// A snapshot suffices. Records that agree with the volume on the walk
/// from `path` up to the root, and on the node that holds `path`, give
/// every request about `path` the answer that the records of the whole
/// volume give.
pub proof fn law_snapshot_suffices(
    whole: Records,
    part: Records,
    sessions: Sessions,
    ctx: ContextView,
    path: Seq<u8>,
    mimetype: Seq<char>,
    data: Seq<u8>,
    overwrite: bool,
    digest: Seq<u8>,
    who: Seq<u8>,
    flags: (bool, bool, bool),
    size: u64,
    given: Option<Seq<u8>>,
    recursively: bool,
)
    requires
        agree_on(whole, part, walk(ctx.root, path).push(holder_of(ctx.root, path))),
    ensures
        save_plan(whole, sessions, ctx, path, mimetype, data, overwrite, digest) == save_plan(
            part,
            sessions,
            ctx,
            path,
            mimetype,
            data,
            overwrite,
            digest,
        ),
        begin_refusal(whole, sessions, ctx, path, mimetype, overwrite) == begin_refusal(
            part,
            sessions,
            ctx,
            path,
            mimetype,
            overwrite,
        ),
        read_refusal(whole, ctx, path) == read_refusal(part, ctx, path),
        record_at(whole, path) == record_at(part, path),
        delete_plan(whole, ctx, path) == delete_plan(part, ctx, path),
        create_directory_plan(whole, ctx, path) == create_directory_plan(part, ctx, path),
        add_permission_plan(whole, ctx, path, who, flags.0, flags.1, flags.2) == add_permission_plan(
            part,
            ctx,
            path,
            who,
            flags.0,
            flags.1,
            flags.2,
        ),
        remove_permission_plan(whole, ctx, path, who, flags.0, flags.1, flags.2)
            == remove_permission_plan(part, ctx, path, who, flags.0, flags.1, flags.2),
        delete_directory_plan(whole, ctx, path, recursively) == delete_directory_plan(
            part,
            ctx,
            path,
            recursively,
        ),
        commit_plan(whole, sessions, ctx, path, size, given, digest) == commit_plan(
            part,
            sessions,
            ctx,
            path,
            size,
            given,
            digest,
        ),
        path == ctx.root ==> init_plan(whole, ctx) == init_plan(part, ctx),
{
    let nodes = walk(ctx.root, path);
    let read = nodes.push(holder_of(ctx.root, path));
    assert forall|i: int| 0 <= i < nodes.len() implies record_at(whole, #[trigger] nodes[i])
        == record_at(part, nodes[i]) by {
        assert(read[i] == nodes[i]);
    }
    assert(read[nodes.len() as int] == holder_of(ctx.root, path));
    assert(record_at(whole, holder_of(ctx.root, path)) == record_at(part, holder_of(ctx.root, path)));
    assert(nodes[0] == path);
    assert(record_at(whole, path) == record_at(part, path));
    law_walk_decides_permission(whole, part, ctx.root, ctx.caller, path, Capability::Write);
    law_walk_decides_permission(whole, part, ctx.root, ctx.caller, path, Capability::Read);
    law_walk_decides_permission(whole, part, ctx.root, ctx.caller, path, Capability::Manage);
}

/// Under the root `/` every walk ends at the root.
pub proof fn lemma_walk_ends_at_the_root(path: Seq<u8>)
    ensures
        walk(seq![SLASH], path).len() >= 1,
        walk(seq![SLASH], path).last() == seq![SLASH],
    decreases path.len(),
{
    let root = seq![SLASH];
    if path != root && last_slash(path) >= 0 {
        lemma_last_slash(path);
        lemma_walk_ends_at_the_root(path.subrange(0, last_slash(path)));
    }
}

/// The first request makes the caller the owner. Once the plan of
/// `init_canistorage` is carried out under the root `/`, the root is a
/// directory whose record names the caller in every access list, and the
/// caller holds every capability on every path.
pub proof fn law_init_makes_the_caller_the_owner(v: Volume, ctx: ContextView, path: Seq<u8>, cap: Capability)
    requires
        ctx.root == seq![SLASH],
        init_plan(v.records, ctx).reply is None,
    ensures
        ({
            let after = carried_out(v, init_plan(v.records, ctx));
            &&& after.records == v.records.insert(ctx.root, directory_record(ctx, seq![ctx.caller]))
            &&& after.records[ctx.root].is_dir()
            &&& after.records[ctx.root].grants(ctx.caller, cap)
            &&& permitted(after.records, ctx.root, ctx.caller, path, cap)
            &&& after.files == v.files
            &&& after.sessions == v.sessions
        }),
{
    let record = directory_record(ctx, seq![ctx.caller]);
    lemma_perform_one(v, ActionView::PutInfo { path: ctx.root, info: record });
    let after = carried_out(v, init_plan(v.records, ctx));
    assert(record.list(cap) == seq![ctx.caller]);
    assert(record.list(cap)[0] == ctx.caller);
    lemma_walk_ends_at_the_root(path);
    lemma_permitted_on_walk(after.records, ctx.root, ctx.caller, path, cap);
    let nodes = walk(ctx.root, path);
    assert(granted_at(after.records, nodes[nodes.len() - 1], ctx.caller, cap));
}

/// A directory takes new nodes. Where the node that holds `path` is a
/// directory, the caller may write at `path`, no node is there and no upload
/// runs for it, content with a media type that is not reserved is saved at
/// `path`, an upload for it begins, and a directory is created there. A
/// directory that was created is one that takes new nodes in its turn.
pub proof fn law_a_directory_takes_new_nodes(
    v: Volume,
    ctx: ContextView,
    path: Seq<u8>,
    mimetype: Seq<char>,
    data: Seq<u8>,
    overwrite: bool,
)
    requires
        valid_path(ctx.root, path),
        permitted(v.records, ctx.root, ctx.caller, path, Capability::Write),
        parent_is_directory(v.records, ctx.root, path),
        !v.records.contains_key(path),
        !active(v.sessions, path, ctx.now),
    ensures
        !reserved_mimetype(mimetype) ==> save_plan(
            v.records,
            v.sessions,
            ctx,
            path,
            mimetype,
            data,
            overwrite,
            sha256_of(data),
        ).reply is None,
        !reserved_mimetype(mimetype) ==> begin_refusal(v.records, v.sessions, ctx, path, mimetype, overwrite)
            is None,
        create_directory_plan(v.records, ctx, path).reply is None,
        ({
            let after = carried_out(v, create_directory_plan(v.records, ctx, path));
            &&& after.records == v.records.insert(path, directory_record(ctx, Seq::empty()))
            &&& after.records[path].is_dir()
            &&& after.dirs.contains(path)
        }),
{
    lemma_perform_two(
        v,
        ActionView::CreateDir { path },
        ActionView::PutInfo { path, info: directory_record(ctx, Seq::empty()) },
    );
}

/// A node that is there is not replaced unasked. Once content was saved at
/// `path`, a second save that may not replace it is refused, by whoever may
/// write there, with the reply that the node already exists.
pub proof fn law_saved_node_is_not_replaced_unasked(
    v: Volume,
    ctx: ContextView,
    later: ContextView,
    path: Seq<u8>,
    mimetype: Seq<char>,
    data: Seq<u8>,
    overwrite: bool,
    again: Seq<char>,
)
    requires
        later.root == ctx.root,
        save_plan(v.records, v.sessions, ctx, path, mimetype, data, overwrite, sha256_of(data)).reply is None,
        permitted(
            carried_out(
                v,
                save_plan(v.records, v.sessions, ctx, path, mimetype, data, overwrite, sha256_of(data)),
            ).records,
            later.root,
            later.caller,
            path,
            Capability::Write,
        ),
        !reserved_mimetype(again),
    ensures
        ({
            let after = carried_out(
                v,
                save_plan(v.records, v.sessions, ctx, path, mimetype, data, overwrite, sha256_of(data)),
            );
            &&& after.records.contains_key(path)
            &&& after.sessions == v.sessions
            &&& save_refusal(after.records, after.sessions, later, path, again, false) == Some(
                ERROR_ALREADY_EXISTS,
            )
        }),
{
    let digest = sha256_of(data);
    let record = written_record(record_at(v.records, path), ctx, mimetype, data.len() as u64, digest);
    let staging = staging_of(path);
    lemma_perform_three(
        v,
        ActionView::Write { path: staging, data },
        ActionView::Rename { from: staging, to: path },
        ActionView::PutInfo { path, info: record },
    );
}

} // verus!
