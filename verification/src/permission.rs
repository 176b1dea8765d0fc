//! Who may do what: a capability is held where the node itself grants it, or
//! any node on the way up to the root does.
use crate::metadata::Capability;
use crate::path::find_last_slash;
use crate::path::last_slash;
use crate::path::lemma_last_slash;
use crate::path::name_views;
use crate::path::holder_of;
use crate::path::holder_path;
use crate::path::same_bytes;
use crate::path::utf8;
use crate::path::valid_path;
use crate::path::validate_path;
use crate::path::SLASH;
use crate::principal::Principal;
use crate::store::Records;
use crate::store::Snapshot;
use vstd::prelude::*;
use vstd::string::StringExecFns;
use vstd::utf8::*;

verus! {

/// Whether the record of the node `path`, if there is one, grants `cap` to `who`.
pub open spec fn granted_at(records: Records, path: Seq<u8>, who: Seq<u8>, cap: Capability) -> bool {
    records.contains_key(path) && records[path].grants(who, cap)
}

/// Whether `who` holds `cap` on the node `path`. The node's own record may
/// grant it. If it does not, and the node is not the root, the question
/// passes to what stands before the last `/` of the path. A path without a
/// `/` passes it to `/`, where the walk ends.
pub open spec fn permitted(records: Records, root: Seq<u8>, who: Seq<u8>, path: Seq<u8>, cap: Capability) -> bool
    decreases path.len(),
{
    granted_at(records, path, who, cap) || (path != root && if last_slash(path) >= 0 {
        proof {
            lemma_last_slash(path);
        }
        permitted(records, root, who, path.subrange(0, last_slash(path)), cap)
    } else {
        granted_at(records, seq![SLASH], who, cap)
    })
}

/// The nodes that are asked, in turn, whether they grant a capability on
/// `path`: the node itself, then what stands before its last `/`, and so on
/// up to the root. A path without a `/` that is not the root is followed by
/// `/`, and the walk ends there.
pub open spec fn walk(root: Seq<u8>, path: Seq<u8>) -> Seq<Seq<u8>>
    decreases path.len(),
{
    if path == root {
        seq![path]
    } else if last_slash(path) >= 0 {
        proof {
            lemma_last_slash(path);
        }
        seq![path] + walk(root, path.subrange(0, last_slash(path)))
    } else {
        seq![path, seq![SLASH]]
    }
}

/// A capability is held on a node exactly where a node on its walk grants it.
pub proof fn lemma_permitted_on_walk(records: Records, root: Seq<u8>, who: Seq<u8>, path: Seq<u8>, cap: Capability)
    ensures
        permitted(records, root, who, path, cap) <==> exists|i: int|
            0 <= i < walk(root, path).len() && granted_at(records, #[trigger] walk(root, path)[i], who, cap),
    decreases path.len(),
{
    let nodes = walk(root, path);
    if path == root {
        assert(nodes[0] == path);
    } else if last_slash(path) >= 0 {
        lemma_last_slash(path);
        let parent = path.subrange(0, last_slash(path));
        let above = walk(root, parent);
        lemma_permitted_on_walk(records, root, who, parent, cap);
        assert(nodes[0] == path);
        if permitted(records, root, who, parent, cap) {
            let i = choose|i: int| 0 <= i < above.len() && granted_at(records, #[trigger] above[i], who, cap);
            assert(nodes[i + 1] == above[i]);
        }
        if exists|i: int| 0 <= i < nodes.len() && granted_at(records, #[trigger] nodes[i], who, cap) {
            let i = choose|i: int| 0 <= i < nodes.len() && granted_at(records, #[trigger] nodes[i], who, cap);
            if i > 0 {
                assert(above[i - 1] == nodes[i]);
            }
        }
    } else {
        assert(nodes[0] == path);
        assert(nodes[1] == seq![SLASH]);
    }
}

/// The paths of the nodes on the walk from `path` up to the root: the nodes
/// whose records decide what a caller may do with `path`.
pub fn walk_paths(root: &str, path: &String) -> (nodes: Vec<String>)
    ensures
        name_views(nodes@) == walk(utf8(root@), utf8(path@)),
{
    let whole = path.as_str();
    let bytes = whole.as_bytes();
    let mut nodes: Vec<String> = Vec::new();
    let mut k: usize = bytes.len();
    proof {
        encode_utf8_valid_utf8(path@);
        assert(bytes@.subrange(0, k as int) =~= bytes@);
        assert(name_views(nodes@) + walk(utf8(root@), bytes@) =~= walk(utf8(root@), bytes@));
    }
    loop
        invariant
            bytes@ == utf8(path@),
            whole@ == path@,
            valid_utf8(bytes@),
            k <= bytes.len(),
            k < bytes.len() ==> bytes@[k as int] == SLASH,
            walk(utf8(root@), utf8(path@)) == name_views(nodes@) + walk(
                utf8(root@),
                bytes@.subrange(0, k as int),
            ),
        decreases k,
    {
        proof {
            if k < bytes.len() {
                is_char_boundary_iff_not_is_continuation_byte(bytes@, k as int);
            } else {
                is_char_boundary_start_end_of_seq(bytes@);
            }
        }
        let (here, _) = whole.split_at(k);
        let ghost cur = bytes@.subrange(0, k as int);
        let ghost before = name_views(nodes@);
        assert(utf8(here@) == cur);
        let node = String::from_str(here);
        nodes.push(node);
        assert(name_views(nodes@) =~= before.push(cur));
        if same_bytes(here.as_bytes(), root.as_bytes()) {
            assert(before.push(cur) =~= before + seq![cur]);
            return nodes;
        }
        match find_last_slash(here.as_bytes()) {
            Some(i) => {
                proof {
                    lemma_last_slash(cur);
                    assert(cur.subrange(0, i as int) =~= bytes@.subrange(0, i as int));
                    assert(before + (seq![cur] + walk(utf8(root@), cur.subrange(0, i as int)))
                        =~= before.push(cur) + walk(utf8(root@), cur.subrange(0, i as int)));
                }
                k = i;
            },
            None => {
                proof {
                    reveal_strlit("/");
                    is_ascii_chars_encode_utf8("/"@);
                    assert(utf8("/"@) =~= seq![SLASH]);
                }
                let ghost so_far = name_views(nodes@);
                nodes.push(String::from_str("/"));
                assert(name_views(nodes@) =~= so_far.push(seq![SLASH]));
                assert(before + seq![cur, seq![SLASH]] =~= so_far.push(seq![SLASH]));
                return nodes;
            },
        }
    }
}

/// The records that a request about `path` depends on: those of the
/// nodes on the walk from `path` up to the root, and that of the node that
/// holds `path`. None for a path that the store does not accept.
pub open spec fn records_needed(root: Seq<u8>, path: Seq<u8>) -> Seq<Seq<u8>> {
    if valid_path(root, path) {
        walk(root, path).push(holder_of(root, path))
    } else {
        Seq::empty()
    }
}

/// The paths of the nodes whose records have to be read before a request
/// about `path` is decided.
pub fn paths_to_read(root: &str, path: &String) -> (nodes: Vec<String>)
    ensures
        name_views(nodes@) == records_needed(utf8(root@), utf8(path@)),
{
    if validate_path(root, path).is_err() {
        let nodes: Vec<String> = Vec::new();
        assert(name_views(nodes@) =~= Seq::<Seq<u8>>::empty());
        return nodes;
    }
    let mut nodes = walk_paths(root, path);
    let ghost before = name_views(nodes@);
    let parent = holder_path(root, path);
    nodes.push(parent);
    assert(name_views(nodes@) =~= before.push(holder_of(utf8(root@), utf8(path@))));
    nodes
}

/// Whether `who` holds `cap` on the node `path`, by the records in `store`.
pub fn check_permission(
    principal: &Principal,
    path: &String,
    cap: Capability,
    root: &str,
    store: &Snapshot,
) -> (allowed: bool)
    ensures
        allowed == permitted(store@, utf8(root@), principal@, utf8(path@), cap),
{
    let whole = path.as_str();
    let bytes = whole.as_bytes();
    let mut k: usize = bytes.len();
    proof {
        encode_utf8_valid_utf8(path@);
        assert(bytes@.subrange(0, k as int) =~= bytes@);
    }
    loop
        invariant
            bytes@ == utf8(path@),
            whole@ == path@,
            valid_utf8(bytes@),
            k <= bytes.len(),
            k < bytes.len() ==> bytes@[k as int] == SLASH,
            permitted(store@, utf8(root@), principal@, utf8(path@), cap) == permitted(
                store@,
                utf8(root@),
                principal@,
                bytes@.subrange(0, k as int),
                cap,
            ),
        decreases k,
    {
        proof {
            if k < bytes.len() {
                is_char_boundary_iff_not_is_continuation_byte(bytes@, k as int);
            } else {
                is_char_boundary_start_end_of_seq(bytes@);
            }
        }
        let (here, _) = whole.split_at(k);
        let ghost cur = bytes@.subrange(0, k as int);
        assert(utf8(here@) == cur);
        let granted = match store.get(here) {
            Some(info) => info.grants(principal, cap),
            None => false,
        };
        if granted {
            return true;
        }
        if same_bytes(here.as_bytes(), root.as_bytes()) {
            return false;
        }
        match find_last_slash(here.as_bytes()) {
            Some(i) => {
                proof {
                    lemma_last_slash(cur);
                    assert(cur.subrange(0, i as int) =~= bytes@.subrange(0, i as int));
                }
                k = i;
            },
            None => {
                proof {
                    reveal_strlit("/");
                    is_ascii_chars_encode_utf8("/"@);
                    assert(utf8("/"@) =~= seq![SLASH]);
                }
                return match store.get("/") {
                    Some(info) => info.grants(principal, cap),
                    None => false,
                };
            },
        }
    }
}

/// Whether `principal` may change the access lists of the node `path`.
pub fn check_manage_permission(principal: &Principal, path: &String, root: &str, store: &Snapshot) -> (allowed:
    bool)
    ensures
        allowed == permitted(store@, utf8(root@), principal@, utf8(path@), Capability::Manage),
{
    check_permission(principal, path, Capability::Manage, root, store)
}

/// Whether `principal` may read the node `path`.
pub fn check_read_permission(principal: &Principal, path: &String, root: &str, store: &Snapshot) -> (allowed:
    bool)
    ensures
        allowed == permitted(store@, utf8(root@), principal@, utf8(path@), Capability::Read),
{
    check_permission(principal, path, Capability::Read, root, store)
}

/// Whether `principal` may write the node `path`.
pub fn check_write_permission(principal: &Principal, path: &String, root: &str, store: &Snapshot) -> (allowed:
    bool)
    ensures
        allowed == permitted(store@, utf8(root@), principal@, utf8(path@), Capability::Write),
{
    check_permission(principal, path, Capability::Write, root, store)
}

} // verus!
