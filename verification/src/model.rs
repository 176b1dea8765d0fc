//! The volume as the store sees it: what it holds, what an action does to
//! it, and what a read finds on it.
//!
//! Nothing here runs. It is the meaning that the requests are given in:
//! a request checks the records, plans actions, and the actions, once
//! performed, change the volume as written down here.
use crate::context::ContextView;
use crate::error::ERROR_NOT_FOUND;
use crate::metadata::DownloadView;
use crate::path::SLASH;
use crate::plan::ActionView;
use crate::plan::PlanView;
use crate::storage::download_of;
use crate::storage::piece;
use crate::storage::read_refusal;
use crate::store::Records;
use crate::upload::Sessions;
use vstd::prelude::*;

verus! {

/// A volume, and the uploads that run beside it.
pub struct Volume {
    /// The records of the nodes, by the bytes of their paths.
    pub records: Records,
    /// The content of the files, by the bytes of their names. Content that
    /// is staged lies here too, under its staging name.
    pub files: Map<Seq<u8>, Seq<u8>>,
    /// The directories.
    pub dirs: Set<Seq<u8>>,
    /// The uploads that are running.
    pub sessions: Sessions,
}

/// Whether `name` lies in the directory `dir`, at any depth.
pub open spec fn below(dir: Seq<u8>, name: Seq<u8>) -> bool {
    name.len() > dir.len() && dir.is_prefix_of(name) && (name[dir.len() as int] == SLASH || (dir.len() > 0
        && dir.last() == SLASH))
}

/// The volume after `action` was performed on it without a failure.
pub open spec fn perform(v: Volume, action: ActionView) -> Volume {
    match action {
        ActionView::Write { path, data } => Volume { files: v.files.insert(path, data), ..v },
        ActionView::Rename { from, to } => if v.files.contains_key(from) {
            Volume { files: v.files.remove(from).insert(to, v.files[from]), ..v }
        } else {
            v
        },
        ActionView::PutInfo { path, info } => Volume { records: v.records.insert(path, info), ..v },
        ActionView::RemoveFile { path } => Volume { files: v.files.remove(path), ..v },
        ActionView::RemoveInfo { path } => Volume { records: v.records.remove(path), ..v },
        ActionView::CreateDir { path } => Volume { dirs: v.dirs.insert(path), ..v },
        ActionView::RemoveDir { path, recursively } => if recursively {
            Volume {
                records: v.records.remove_keys(Set::new(|name: Seq<u8>| below(path, name))),
                files: v.files.remove_keys(Set::new(|name: Seq<u8>| below(path, name))),
                dirs: v.dirs.filter(|name: Seq<u8>| name != path && !below(path, name)),
                ..v
            }
        } else {
            Volume { dirs: v.dirs.remove(path), ..v }
        },
        ActionView::EndUpload { path } => Volume { sessions: v.sessions.remove(path), ..v },
    }
}

/// The volume after `actions` were performed on it, one after the other.
pub open spec fn perform_all(v: Volume, actions: Seq<ActionView>) -> Volume
    decreases actions.len(),
{
    if actions.len() == 0 {
        v
    } else {
        perform_all(perform(v, actions[0]), actions.drop_first())
    }
}

/// The volume after a plan was carried out without a failure.
pub open spec fn carried_out(v: Volume, plan: PlanView) -> Volume {
    perform_all(v, plan.actions)
}

/// The content of the file `path` from the offset `start_at` on. There is
/// none beyond the end of the file.
pub open spec fn available(v: Volume, path: Seq<u8>, start_at: u64) -> Seq<u8> {
    if v.files.contains_key(path) && start_at <= v.files[path].len() {
        v.files[path].skip(start_at as int)
    } else {
        Seq::empty()
    }
}

/// What a ranged read of the file `path` at `start_at` replies on this
/// volume: the error that refuses it, or the piece.
pub open spec fn load_reply(v: Volume, ctx: ContextView, path: Seq<u8>, start_at: u64) -> Result<
    DownloadView,
    u32,
> {
    match read_refusal(v.records, ctx, path) {
        Some(code) => Err(code),
        None => if !v.files.contains_key(path) {
            Err(ERROR_NOT_FOUND)
        } else {
            Ok(download_of(v.records[path], start_at, piece(available(v, path, start_at))))
        },
    }
}

/// A file is sound where its record tells the length of its content, and
/// its digest where it tells one.
pub open spec fn sound_file(v: Volume, path: Seq<u8>) -> bool {
    &&& v.records.contains_key(path)
    &&& v.files.contains_key(path)
    &&& v.records[path].size == v.files[path].len()
    &&& v.records[path].sha256 matches Some(digest) ==> digest == crate::digest::sha256_of(v.files[path])
}

/// Performing a single action is performing it.
pub proof fn lemma_perform_one(v: Volume, a: ActionView)
    ensures
        perform_all(v, seq![a]) == perform(v, a),
{
    assert(seq![a].drop_first() =~= Seq::<ActionView>::empty());
    reveal_with_fuel(perform_all, 2);
}

/// Performing two actions is performing the first, then the second.
pub proof fn lemma_perform_two(v: Volume, a: ActionView, b: ActionView)
    ensures
        perform_all(v, seq![a, b]) == perform(perform(v, a), b),
{
    assert(seq![a, b].drop_first() =~= seq![b]);
    lemma_perform_one(perform(v, a), b);
}

/// Performing no action leaves the volume as it is.
pub proof fn lemma_perform_none(v: Volume)
    ensures
        perform_all(v, Seq::empty()) == v,
{
}

/// Performing three actions is performing the first, then the second, then the third.
pub proof fn lemma_perform_three(v: Volume, a: ActionView, b: ActionView, c: ActionView)
    ensures
        perform_all(v, seq![a, b, c]) == perform(perform(perform(v, a), b), c),
{
    let all = seq![a, b, c];
    assert(all.drop_first() =~= seq![b, c]);
    assert(seq![b, c].drop_first() =~= seq![c]);
    assert(seq![c].drop_first() =~= Seq::<ActionView>::empty());
    reveal_with_fuel(perform_all, 4);
}

/// Performing one more action after others is performing the others first.
pub proof fn lemma_perform_push(v: Volume, actions: Seq<ActionView>, last: ActionView)
    ensures
        perform_all(v, actions.push(last)) == perform(perform_all(v, actions), last),
    decreases actions.len(),
{
    let all = actions.push(last);
    if actions.len() == 0 {
        assert(all.drop_first() =~= Seq::<ActionView>::empty());
        reveal_with_fuel(perform_all, 2);
    } else {
        assert(all.drop_first() =~= actions.drop_first().push(last));
        assert(all[0] == actions[0]);
        lemma_perform_push(perform(v, actions[0]), actions.drop_first(), last);
    }
}

} // verus!
