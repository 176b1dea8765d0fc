//! A dump of the whole tree, and a reset of the whole store. Both are for
//! development only.
use crate::error::Error;
use crate::error::ERROR_NOT_FOUND;
use crate::listing::bytes_le;
use crate::listing::hidden;
use crate::listing::is_hidden;
use crate::listing::le_bytes;
use crate::listing::lemma_bytes_le_total;
use crate::listing::lemma_bytes_le_transitive;
use crate::listing::lemma_insert_to_multiset;
use crate::metadata::copy_principals;
use crate::metadata::FileInfo;
use crate::metadata::MIMETYPE_DIRECTORY;
use crate::path::name_views;
use crate::path::utf8;
use crate::plan::action_views;
use crate::plan::Action;
use crate::plan::ActionView;
use crate::principal::Principal;
use vstd::multiset::Multiset;
use vstd::prelude::*;
use vstd::string::StringExecFns;

verus! {

/// A node of the dump: its path, its metadata and, for a directory, the nodes in it.
#[derive(Debug)]
pub struct FileInfoForPoC {
    pub size: u64,
    pub creator: Principal,
    pub created_at: u64,
    pub updater: Principal,
    pub updated_at: u64,
    pub mimetype: String,
    pub path: String,
    pub manageable: Vec<Principal>,
    pub readable: Vec<Principal>,
    pub writable: Vec<Principal>,
    pub children: Option<Vec<FileInfoForPoC>>,
}

/// The order of the nodes of a directory in the dump: directories before
/// files, and among directories, and among files, by path.
pub open spec fn node_le(a: FileInfoForPoC, b: FileInfoForPoC) -> bool {
    let a_dir = a.mimetype@ == MIMETYPE_DIRECTORY@;
    let b_dir = b.mimetype@ == MIMETYPE_DIRECTORY@;
    if a_dir == b_dir {
        bytes_le(utf8(a.path@), utf8(b.path@))
    } else {
        a_dir
    }
}

/// A list of nodes is in order where each comes no later than those behind it.
pub open spec fn nodes_in_order(nodes: Seq<FileInfoForPoC>) -> bool {
    forall|i: int, j: int| 0 <= i < j < nodes.len() ==> node_le(#[trigger] nodes[i], #[trigger] nodes[j])
}

impl FileInfoForPoC {
    /// Whether the node is a directory.
    pub fn is_dir(&self) -> (yes: bool)
        ensures
            yes == (self.mimetype@ == MIMETYPE_DIRECTORY@),
    {
        let sentinel = String::from_str(MIMETYPE_DIRECTORY);
        self.mimetype == sentinel
    }

    /// Whether the node comes no later than `other` in the dump.
    pub fn le(&self, other: &FileInfoForPoC) -> (yes: bool)
        ensures
            yes == node_le(*self, *other),
    {
        let mine = self.is_dir();
        let theirs = other.is_dir();
        if mine == theirs {
            le_bytes(self.path.as_str().as_bytes(), other.path.as_str().as_bytes())
        } else {
            mine
        }
    }
}

/// Puts `node` into a list that is in order, behind the nodes that come no later.
fn insert_node(nodes: &mut Vec<FileInfoForPoC>, node: FileInfoForPoC)
    requires
        nodes_in_order(old(nodes)@),
    ensures
        nodes_in_order(final(nodes)@),
        final(nodes)@.to_multiset() == old(nodes)@.to_multiset().insert(node),
{
    let ghost before = nodes@;
    let mut k: usize = 0;
    while k < nodes.len() && nodes[k].le(&node)
        invariant
            k <= nodes.len(),
            nodes@ == before,
            forall|j: int| 0 <= j < k ==> node_le(#[trigger] before[j], node),
        decreases nodes.len() - k,
    {
        k += 1;
    }
    proof {
        let after = before.insert(k as int, node);
        assert forall|i: int, j: int| 0 <= i < j < after.len() implies node_le(
            #[trigger] after[i],
            #[trigger] after[j],
        ) by {
            if j < k {
                assert(after[i] == before[i] && after[j] == before[j]);
            } else if j == k {
                assert(after[i] == before[i]);
            } else if i == k {
                let next = before[k as int];
                let last = before[j - 1];
                assert(after[j] == last);
                assert(!node_le(next, node));
                lemma_bytes_le_total(utf8(next.path@), utf8(node.path@));
                lemma_bytes_le_total(utf8(next.path@), utf8(next.path@));
                if j - 1 > k {
                    assert(node_le(next, last));
                }
                if (node.mimetype@ == MIMETYPE_DIRECTORY@) == (next.mimetype@ == MIMETYPE_DIRECTORY@)
                    && (next.mimetype@ == MIMETYPE_DIRECTORY@) == (last.mimetype@
                    == MIMETYPE_DIRECTORY@) {
                    lemma_bytes_le_transitive(utf8(node.path@), utf8(next.path@), utf8(last.path@));
                }
            } else if i < k {
                assert(after[i] == before[i] && after[j] == before[j - 1]);
            } else {
                assert(after[i] == before[i - 1] && after[j] == before[j - 1]);
            }
        }
        lemma_insert_to_multiset(before, k as int, node);
    }
    nodes.insert(k, node);
}

/// The nodes of a directory in the order of the dump.
pub fn sorted_nodes(nodes: Vec<FileInfoForPoC>) -> (sorted: Vec<FileInfoForPoC>)
    ensures
        nodes_in_order(sorted@),
        sorted@.to_multiset() == nodes@.to_multiset(),
{
    let ghost all = nodes@;
    let mut rest = nodes;
    let mut sorted: Vec<FileInfoForPoC> = Vec::new();
    proof {
        all.to_multiset_ensures();
        assert(sorted@.to_multiset() =~= Multiset::<FileInfoForPoC>::empty()) by {
            sorted@.to_multiset_ensures();
            assert(sorted@.to_multiset().len() == 0);
        }
        assert(sorted@.to_multiset().add(rest@.to_multiset()) =~= all.to_multiset());
    }
    while rest.len() > 0
        invariant
            nodes_in_order(sorted@),
            sorted@.to_multiset().add(rest@.to_multiset()) == all.to_multiset(),
        decreases rest.len(),
    {
        let ghost held = rest@;
        let ghost done = sorted@;
        let node = rest.pop().unwrap();
        proof {
            assert(rest@ =~= held.remove(held.len() - 1));
            vstd::seq_lib::to_multiset_remove(held, held.len() - 1);
            held.to_multiset_ensures();
            assert(held.contains(held[held.len() - 1]));
        }
        insert_node(&mut sorted, node);
        assert(sorted@.to_multiset().add(rest@.to_multiset()) =~= done.to_multiset().add(
            held.to_multiset(),
        ));
    }
    proof {
        assert(rest@.to_multiset() =~= Multiset::<FileInfoForPoC>::empty()) by {
            rest@.to_multiset_ensures();
            assert(rest@.to_multiset().len() == 0);
        }
        assert(sorted@.to_multiset().add(rest@.to_multiset()) =~= sorted@.to_multiset());
    }
    sorted
}

/// The paths that the dump follows, of the entries of a directory: the
/// paths of the entries whose names are not hidden, in the order of the
/// entries. An entry is a name and a path.
pub open spec fn dumped(entries: Seq<(Seq<u8>, Seq<u8>)>) -> Seq<Seq<u8>>
    decreases entries.len(),
{
    if entries.len() == 0 {
        Seq::empty()
    } else {
        let before = dumped(entries.drop_last());
        if hidden(entries.last().0) {
            before
        } else {
            before.push(entries.last().1)
        }
    }
}

/// The entries of a directory, each name and each path as its bytes.
pub open spec fn named_paths(entries: Seq<(String, String)>) -> Seq<(Seq<u8>, Seq<u8>)> {
    Seq::new(entries.len(), |i: int| (utf8(entries[i].0@), utf8(entries[i].1@)))
}

/// The paths that the dump follows, of the entries of a directory. What
/// belongs to the store, the metadata and the staged content, is left out.
/// `entries` is what the volume holds in the directory: each name, and the
/// path it stands for.
pub fn paths_to_dump(entries: Vec<(String, String)>) -> (paths: Vec<String>)
    ensures
        name_views(paths@) == dumped(named_paths(entries@)),
{
    let ghost all = named_paths(entries@);
    let mut paths: Vec<String> = Vec::new();
    let mut i: usize = 0;
    assert(all.subrange(0, 0) =~= Seq::<(Seq<u8>, Seq<u8>)>::empty());
    assert(name_views(paths@) =~= Seq::<Seq<u8>>::empty());
    while i < entries.len()
        invariant
            i <= entries.len(),
            all == named_paths(entries@),
            name_views(paths@) == dumped(all.subrange(0, i as int)),
        decreases entries.len() - i,
    {
        proof {
            let upto = all.subrange(0, i + 1);
            assert(upto.drop_last() =~= all.subrange(0, i as int));
            assert(upto.last() == all[i as int]);
        }
        let entry = &entries[i];
        if !is_hidden(entry.0.as_str()) {
            let ghost before = name_views(paths@);
            paths.push(entry.1.clone());
            assert(name_views(paths@) =~= before.push(utf8(entry.1@)));
        }
        i += 1;
    }
    assert(all.subrange(0, entries@.len() as int) =~= all);
    paths
}

/// The node of the dump for `path`. `info` is the record of the node, if
/// there is one, and `children` are the nodes of what it holds, in any
/// order. A directory gets them in the order of the dump. A file gets none.
pub fn get_info_for_poc(path: String, info: Option<&FileInfo>, children: Vec<FileInfoForPoC>) -> (reply:
    Result<FileInfoForPoC, Error>)
    ensures
        reply is Ok <==> info is Some,
        reply matches Err(e) ==> e.code == ERROR_NOT_FOUND,
        reply matches Ok(node) ==> {
            let record = info->Some_0;
            &&& node.path@ == path@
            &&& node.size == record.size
            &&& node.creator == record.creator
            &&& node.created_at == record.created_at
            &&& node.updater == record.updater
            &&& node.updated_at == record.updated_at
            &&& node.mimetype@ == record.mimetype@
            &&& node.manageable@ == record.manageable@
            &&& node.readable@ == record.readable@
            &&& node.writable@ == record.writable@
            &&& node.children is Some <==> record@.is_dir()
            &&& node.children matches Some(held) ==> nodes_in_order(held@) && held@.to_multiset()
                == children@.to_multiset()
        },
{
    match info {
        None => Err(Error::new(ERROR_NOT_FOUND, "Directory not found")),
        Some(record) => {
            let held = if record.is_dir() {
                Some(sorted_nodes(children))
            } else {
                None
            };
            Ok(
                FileInfoForPoC {
                    path,
                    size: record.size,
                    creator: record.creator,
                    created_at: record.created_at,
                    updater: record.updater,
                    updated_at: record.updated_at,
                    mimetype: record.mimetype.clone(),
                    manageable: copy_principals(&record.manageable),
                    readable: copy_principals(&record.readable),
                    writable: copy_principals(&record.writable),
                    children: held,
                },
            )
        },
    }
}

/// The dump of the whole store: the node of the root `root`, with `info` as
/// its record and `children` as the nodes of what it holds.
pub fn get_all_info_for_poc(root: &str, info: Option<&FileInfo>, children: Vec<FileInfoForPoC>) -> (reply:
    Result<FileInfoForPoC, Error>)
    ensures
        reply is Ok <==> info is Some,
        reply matches Err(e) ==> e.code == ERROR_NOT_FOUND,
        reply matches Ok(node) ==> {
            let record = info->Some_0;
            &&& node.path@ == root@
            &&& node.size == record.size
            &&& node.creator == record.creator
            &&& node.created_at == record.created_at
            &&& node.updater == record.updater
            &&& node.updated_at == record.updated_at
            &&& node.mimetype@ == record.mimetype@
            &&& node.manageable@ == record.manageable@
            &&& node.readable@ == record.readable@
            &&& node.writable@ == record.writable@
            &&& node.children is Some <==> record@.is_dir()
            &&& node.children matches Some(held) ==> nodes_in_order(held@) && held@.to_multiset()
                == children@.to_multiset()
        },
{
    get_info_for_poc(String::from_str(root), info, children)
}

/// What removes one entry of the root: a directory goes with all that is in it.
pub open spec fn removal_of(entry: (String, bool)) -> ActionView {
    if entry.1 {
        ActionView::RemoveDir { path: utf8(entry.0@), recursively: true }
    } else {
        ActionView::RemoveFile { path: utf8(entry.0@) }
    }
}

/// What removes the entries of the root, one after the other.
pub open spec fn removals(entries: Seq<(String, bool)>) -> Seq<ActionView> {
    Seq::new(entries.len(), |i: int| removal_of(entries[i]))
}

/// Empties the store. `entries` is what the root holds: each path, and
/// whether it is a directory. Every entry is removed, in their order.
pub fn force_reset_for_poc(entries: Vec<(String, bool)>) -> (actions: Vec<Action>)
    ensures
        action_views(actions@) == removals(entries@),
{
    let mut actions: Vec<Action> = Vec::new();
    let mut i: usize = 0;
    while i < entries.len()
        invariant
            i <= entries.len(),
            action_views(actions@) == removals(entries@.subrange(0, i as int)),
        decreases entries.len() - i,
    {
        let entry = &entries[i];
        let action = if entry.1 {
            Action::RemoveDir { path: entry.0.clone(), recursively: true }
        } else {
            Action::RemoveFile { path: entry.0.clone() }
        };
        assert(action@ == removal_of(entries@[i as int]));
        let ghost before = action_views(actions@);
        actions.push(action);
        assert(action_views(actions@) =~= before.push(removal_of(entries@[i as int])));
        assert(before.push(removal_of(entries@[i as int])) =~= removals(entries@.subrange(0, i + 1)));
        i += 1;
    }
    assert(entries@.subrange(0, entries@.len() as int) =~= entries@);
    actions
}

} // verus!
