//! What every request keeps true of the volume.
//!
//! A volume is sound where the records are what the store would have
//! written: every record lies under a path without a back-tick, its access
//! lists are in order, and the record of a file tells the length of the
//! content that lies at its path, and its digest where it tells one. No
//! request is answered with a plan that makes a sound volume unsound.
use crate::chunked::assembled;
use crate::chunked::commit_plan;
use crate::chunked::send_refusal;
use crate::chunked::grown;
use crate::chunked::sessions_after_begin;
use crate::context::ContextView;
use crate::digest::sha256_of;
use crate::metadata::lemma_with_principal;
use crate::metadata::lemma_without_principal;
use crate::model::carried_out;
use crate::model::lemma_perform_none;
use crate::model::lemma_perform_one;
use crate::model::lemma_perform_push;
use crate::model::lemma_perform_three;
use crate::model::lemma_perform_two;
use crate::model::perform;
use crate::model::perform_all;
use crate::model::Volume;
use crate::path::has_tick;
use crate::path::law_derived_names_are_reserved;
use crate::path::staging_of;
use crate::plan::ActionView;
use crate::storage::add_permission_plan;
use crate::storage::content_actions;
use crate::storage::create_directory_plan;
use crate::storage::delete_directory_plan;
use crate::storage::delete_plan;
use crate::storage::init_plan;
use crate::storage::record_at;
use crate::storage::remove_permission_plan;
use crate::storage::save_plan;
use crate::storage::written_record;
use crate::upload::Sessions;
use vstd::prelude::*;

verus! {

/// The record of the file `path` tells the length of the content that lies
/// there, and its digest where it tells one.
pub open spec fn sound_content(v: Volume, path: Seq<u8>) -> bool {
    &&& v.files.contains_key(path)
    &&& v.records[path].size == v.files[path].len()
    &&& v.records[path].sha256 matches Some(digest) ==> digest == sha256_of(v.files[path])
}

/// No upload runs for a path that holds a back-tick.
pub open spec fn sound_sessions(sessions: Sessions) -> bool {
    forall|path: Seq<u8>| #[trigger] sessions.contains_key(path) ==> !has_tick(path)
}

/// The volume is sound.
pub open spec fn sound(v: Volume) -> bool {
    &&& forall|path: Seq<u8>| #[trigger]
        v.records.contains_key(path) ==> {
            &&& !has_tick(path)
            &&& v.records[path].well_formed()
            &&& v.records[path].is_dir() || sound_content(v, path)
        }
    &&& sound_sessions(v.sessions)
}

/// Content that is put in place under a sound record keeps the volume sound.
proof fn lemma_content_keeps_sound(
    v: Volume,
    ctx: ContextView,
    path: Seq<u8>,
    mimetype: Seq<char>,
    data: Seq<u8>,
)
    requires
        sound(v),
        !has_tick(path),
        data.len() <= u64::MAX,
        mimetype != crate::metadata::MIMETYPE_DIRECTORY@,
    ensures
        sound(
            perform_all(
                v,
                content_actions(
                    path,
                    data,
                    written_record(
                        record_at(v.records, path),
                        ctx,
                        mimetype,
                        data.len() as u64,
                        sha256_of(data),
                    ),
                ),
            ),
        ),
{
    let record = written_record(
        record_at(v.records, path),
        ctx,
        mimetype,
        data.len() as u64,
        sha256_of(data),
    );
    let staging = staging_of(path);
    lemma_perform_three(
        v,
        ActionView::Write { path: staging, data },
        ActionView::Rename { from: staging, to: path },
        ActionView::PutInfo { path, info: record },
    );
    law_derived_names_are_reserved(path, path, path);
    let after = perform_all(v, content_actions(path, data, record));
    assert(after.files =~= v.files.insert(staging, data).remove(staging).insert(path, data));
    assert(after.records == v.records.insert(path, record));
    assert forall|other: Seq<u8>| #[trigger] after.records.contains_key(other) implies {
        &&& !has_tick(other)
        &&& after.records[other].well_formed()
        &&& after.records[other].is_dir() || sound_content(after, other)
    } by {
        if other != path {
            assert(v.records.contains_key(other));
            assert(other != staging);
        }
    }
}

/// A plan that only writes to a staging name keeps the volume sound.
proof fn lemma_staging_keeps_sound(v: Volume, path: Seq<u8>, data: Seq<u8>)
    requires
        sound(v),
    ensures
        sound(perform_all(v, seq![ActionView::Write { path: staging_of(path), data }])),
{
    lemma_perform_one(v, ActionView::Write { path: staging_of(path), data });
    law_derived_names_are_reserved(path, path, path);
    let after = perform(v, ActionView::Write { path: staging_of(path), data });
    assert forall|other: Seq<u8>| #[trigger] after.records.contains_key(other) implies {
        &&& !has_tick(other)
        &&& after.records[other].well_formed()
        &&& after.records[other].is_dir() || sound_content(after, other)
    } by {
        assert(v.records.contains_key(other));
        assert(other != staging_of(path));
    }
}

/// Requests on single nodes keep the volume sound. Whatever `save`,
/// `delete`, `create_directory`, `delete_directory`, `add_permission`,
/// `remove_permission` and `init_canistorage` plan, a sound volume is sound
/// once the plan is carried out.
pub proof fn law_requests_keep_the_volume_sound(
    v: Volume,
    ctx: ContextView,
    path: Seq<u8>,
    mimetype: Seq<char>,
    data: Seq<u8>,
    overwrite: bool,
    recursively: bool,
    who: Seq<u8>,
    flags: (bool, bool, bool),
)
    requires
        sound(v),
        data.len() <= u64::MAX,
    ensures
        sound(
            carried_out(
                v,
                save_plan(v.records, v.sessions, ctx, path, mimetype, data, overwrite, sha256_of(data)),
            ),
        ),
        sound(carried_out(v, delete_plan(v.records, ctx, path))),
        sound(carried_out(v, create_directory_plan(v.records, ctx, path))),
        sound(carried_out(v, delete_directory_plan(v.records, ctx, path, recursively))),
        sound(carried_out(v, add_permission_plan(v.records, ctx, path, who, flags.0, flags.1, flags.2))),
        sound(
            carried_out(v, remove_permission_plan(v.records, ctx, path, who, flags.0, flags.1, flags.2)),
        ),
        !has_tick(ctx.root) ==> sound(carried_out(v, init_plan(v.records, ctx))),
{
    lemma_perform_none(v);
    // save
    let saved = save_plan(v.records, v.sessions, ctx, path, mimetype, data, overwrite, sha256_of(data));
    if saved.reply is None {
        lemma_content_keeps_sound(v, ctx, path, mimetype, data);
    }
    // delete
    let deleted = delete_plan(v.records, ctx, path);
    if deleted.reply is None {
        lemma_perform_two(v, ActionView::RemoveFile { path }, ActionView::RemoveInfo { path });
        let after = carried_out(v, deleted);
        assert(after.records == v.records.remove(path));
        assert(after.files == v.files.remove(path));
        assert forall|other: Seq<u8>| #[trigger] after.records.contains_key(other) implies {
            &&& !has_tick(other)
            &&& after.records[other].well_formed()
            &&& after.records[other].is_dir() || sound_content(after, other)
        } by {
            assert(v.records.contains_key(other));
        }
    }
    // create_directory
    let created = create_directory_plan(v.records, ctx, path);
    if created.reply is None {
        let record = crate::storage::directory_record(ctx, Seq::empty());
        lemma_perform_two(v, ActionView::CreateDir { path }, ActionView::PutInfo { path, info: record });
        let after = carried_out(v, created);
        assert(after.records == v.records.insert(path, record));
        assert(after.files == v.files);
        assert forall|other: Seq<u8>| #[trigger] after.records.contains_key(other) implies {
            &&& !has_tick(other)
            &&& after.records[other].well_formed()
            &&& after.records[other].is_dir() || sound_content(after, other)
        } by {
            if other != path {
                assert(v.records.contains_key(other));
            }
        }
    }
    // delete_directory
    let removed = delete_directory_plan(v.records, ctx, path, recursively);
    if removed.reply is None {
        lemma_perform_two(
            v,
            ActionView::RemoveDir { path, recursively },
            ActionView::RemoveInfo { path },
        );
        let after = carried_out(v, removed);
        assert forall|other: Seq<u8>| #[trigger] after.records.contains_key(other) implies {
            &&& !has_tick(other)
            &&& after.records[other].well_formed()
            &&& after.records[other].is_dir() || sound_content(after, other)
        } by {
            assert(v.records.contains_key(other));
            assert(after.records[other] == v.records[other]);
            if !v.records[other].is_dir() {
                assert(v.files.contains_key(other));
                assert(after.files.contains_key(other) && after.files[other] == v.files[other]);
            }
        }
    }
    // add_permission, remove_permission
    let granted = add_permission_plan(v.records, ctx, path, who, flags.0, flags.1, flags.2);
    let revoked = remove_permission_plan(v.records, ctx, path, who, flags.0, flags.1, flags.2);
    if granted.reply is None {
        let before = v.records[path];
        lemma_with_principal(before.manageable, who);
        lemma_with_principal(before.readable, who);
        lemma_with_principal(before.writable, who);
        lemma_without_principal(before.manageable, who);
        lemma_without_principal(before.readable, who);
        lemma_without_principal(before.writable, who);
        let more = before.granting(who, flags.0, flags.1, flags.2);
        let less = before.revoking(who, flags.0, flags.1, flags.2);
        lemma_perform_one(v, ActionView::PutInfo { path, info: more });
        lemma_perform_one(v, ActionView::PutInfo { path, info: less });
        let with_more = carried_out(v, granted);
        let with_less = carried_out(v, revoked);
        assert(with_more.records == v.records.insert(path, more));
        assert(with_less.records == v.records.insert(path, less));
        assert forall|other: Seq<u8>| #[trigger] with_more.records.contains_key(other) implies {
            &&& !has_tick(other)
            &&& with_more.records[other].well_formed()
            &&& with_more.records[other].is_dir() || sound_content(with_more, other)
        } by {
            assert(v.records.contains_key(other));
        }
        assert forall|other: Seq<u8>| #[trigger] with_less.records.contains_key(other) implies {
            &&& !has_tick(other)
            &&& with_less.records[other].well_formed()
            &&& with_less.records[other].is_dir() || sound_content(with_less, other)
        } by {
            assert(v.records.contains_key(other));
        }
    }
    // init_canistorage
    let begun = init_plan(v.records, ctx);
    if begun.reply is None && !has_tick(ctx.root) {
        let record = crate::storage::directory_record(ctx, seq![ctx.caller]);
        lemma_perform_one(v, ActionView::PutInfo { path: ctx.root, info: record });
        let after = carried_out(v, begun);
        assert(after.records == v.records.insert(ctx.root, record));
        assert forall|other: Seq<u8>| #[trigger] after.records.contains_key(other) implies {
            &&& !has_tick(other)
            &&& after.records[other].well_formed()
            &&& after.records[other].is_dir() || sound_content(after, other)
        } by {
            if other != ctx.root {
                assert(v.records.contains_key(other));
            }
        }
    }
}

/// Uploads keep the volume sound. No request to begin an upload, and no
/// piece that is taken in, lets an upload run for a path with a back-tick,
/// and whatever `commit_upload` plans, a sound volume is sound once the
/// plan is carried out.
pub proof fn law_uploads_keep_the_volume_sound(
    v: Volume,
    ctx: ContextView,
    path: Seq<u8>,
    mimetype: Seq<char>,
    overwrite: bool,
    start: u64,
    data: Seq<u8>,
    size: u64,
    given: Option<Seq<u8>>,
)
    requires
        sound(v),
    ensures
        sound_sessions(sessions_after_begin(v.records, v.sessions, ctx, path, mimetype, overwrite)),
        send_refusal(v.sessions, ctx, path, start, data.len()) is None ==> sound_sessions(
            v.sessions.insert(path, grown(v.sessions[path], ctx.now, start, data)),
        ),
        sound_sessions(v.sessions.remove(path)),
        sound(
            carried_out(
                v,
                commit_plan(
                    v.records,
                    v.sessions,
                    ctx,
                    path,
                    size,
                    given,
                    sha256_of(assembled(v.sessions[path].chunks, 0, size)),
                ),
            ),
        ),
{
    lemma_perform_none(v);
    let digest = sha256_of(assembled(v.sessions[path].chunks, 0, size));
    let plan = commit_plan(v.records, v.sessions, ctx, path, size, given, digest);
    if v.sessions.contains_key(path) {
        let session = v.sessions[path];
        let joined = assembled(session.chunks, 0, size);
        if plan.reply is None {
            let record = written_record(record_at(v.records, path), ctx, session.mimetype, size, digest);
            let written = content_actions(path, joined, record);
            assert(plan.actions == written.push(ActionView::EndUpload { path }));
            lemma_perform_push(v, written, ActionView::EndUpload { path });
            if session.mimetype == crate::metadata::MIMETYPE_DIRECTORY@ {
                // the record then says directory, and tells nothing of content
                let staging = staging_of(path);
                lemma_perform_three(
                    v,
                    ActionView::Write { path: staging, data: joined },
                    ActionView::Rename { from: staging, to: path },
                    ActionView::PutInfo { path, info: record },
                );
                law_derived_names_are_reserved(path, path, path);
                let after = carried_out(v, plan);
                assert forall|other: Seq<u8>| #[trigger] after.records.contains_key(other) implies {
                    &&& !has_tick(other)
                    &&& after.records[other].well_formed()
                    &&& after.records[other].is_dir() || sound_content(after, other)
                } by {
                    if other != path {
                        assert(v.records.contains_key(other));
                        assert(other != staging);
                    }
                }
            } else {
                lemma_content_keeps_sound(v, ctx, path, session.mimetype, joined);
            }
        } else if plan.actions.len() > 0 {
            lemma_staging_keeps_sound(v, path, joined);
        }
    }
}

} // verus!
