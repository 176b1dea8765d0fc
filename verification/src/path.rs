//! Logical paths: which ones the store accepts, and the names derived from
//! them on the volume.
//!
//! A path is judged by the bytes it is stored as. Every rule here looks for
//! ASCII bytes only, and in UTF-8 such a byte never lies inside a longer
//! character, so a rule on bytes is the same rule on characters.
use crate::error::Error;
use crate::error::ERROR_INVALID_PATH;
use vstd::prelude::*;
use vstd::string::StringExecFns;
use vstd::utf8::*;

verus! {

/// The longest path the store accepts, in bytes.
pub const MAX_PATH: usize = 1024;

/// `/`, which separates the names of a path.
pub const SLASH: u8 = 0x2f;

/// `` ` ``, reserved for the names the store derives.
pub const TICK: u8 = 0x60;

/// `.`, which may not stand twice in a row.
pub const DOT: u8 = 0x2e;

/// The bytes a string is stored as.
pub open spec fn utf8(s: Seq<char>) -> Seq<u8> {
    encode_utf8(s)
}

/// The strings of a list, each as the bytes it is stored as.
pub open spec fn name_views(names: Seq<String>) -> Seq<Seq<u8>> {
    names.map_values(|n: String| utf8(n@))
}

/// The index of the last `/` in `p`, or -1 where it has none.
pub open spec fn last_slash(p: Seq<u8>) -> int
    decreases p.len(),
{
    if p.len() == 0 {
        -1
    } else if p.last() == SLASH {
        p.len() - 1
    } else {
        last_slash(p.drop_last())
    }
}

/// `p` holds two dots in a row.
pub open spec fn has_dot_dot(p: Seq<u8>) -> bool {
    exists|i: int| 0 <= i && i + 1 < p.len() && #[trigger] p[i] == DOT && p[i + 1] == DOT
}

/// `p` holds a back-tick.
pub open spec fn has_tick(p: Seq<u8>) -> bool {
    exists|i: int| 0 <= i < p.len() && #[trigger] p[i] == TICK
}

/// The paths the store accepts under the root `root`: not empty, at most
/// [`MAX_PATH`] bytes, beginning with the root, ending in `/` only where the
/// path is the root itself, and free of `..` and of `` ` ``.
pub open spec fn valid_path(root: Seq<u8>, p: Seq<u8>) -> bool {
    &&& 0 < p.len() <= MAX_PATH
    &&& root.is_prefix_of(p)
    &&& !(p.len() > root.len() && p.last() == SLASH)
    &&& !has_dot_dot(p)
    &&& !has_tick(p)
}

/// `p` with `mark` put in front of its last name: after the last `/`, or at
/// the very front where `p` has none.
pub open spec fn marked(p: Seq<u8>, mark: Seq<u8>) -> Seq<u8> {
    let cut = last_slash(p) + 1;
    p.subrange(0, cut) + mark + p.subrange(cut, p.len() as int)
}

/// Where the metadata of the node `p` lies on the volume.
pub open spec fn sidecar_of(p: Seq<u8>) -> Seq<u8> {
    marked(p, seq![TICK])
}

/// Where content for the node `p` is staged before it is renamed into place.
pub open spec fn staging_of(p: Seq<u8>) -> Seq<u8> {
    marked(p, seq![TICK, TICK])
}

/// What stands before the last `/` of `p`; empty where `p` has none.
pub open spec fn parent_of(p: Seq<u8>) -> Seq<u8> {
    if last_slash(p) >= 0 {
        p.subrange(0, last_slash(p))
    } else {
        Seq::empty()
    }
}

/// The node that holds the node `p` under the root `root`: what stands
/// before the last `/` of `p`. Under the root `/` nothing stands before the
/// `/` of a node that lies in the root itself, and the root is what holds it.
pub open spec fn holder_of(root: Seq<u8>, p: Seq<u8>) -> Seq<u8> {
    if parent_of(p).len() == 0 && root == seq![SLASH] {
        root
    } else {
        parent_of(p)
    }
}

/// What [`last_slash`] finds is the last `/`, and -1 means there is none.
pub proof fn lemma_last_slash(p: Seq<u8>)
    ensures
        -1 <= last_slash(p) < p.len(),
        last_slash(p) >= 0 ==> p[last_slash(p)] == SLASH,
        forall|j: int| last_slash(p) < j < p.len() ==> #[trigger] p[j] != SLASH,
    decreases p.len(),
{
    if p.len() > 0 && p.last() != SLASH {
        let front = p.drop_last();
        lemma_last_slash(front);
        assert forall|j: int| last_slash(p) < j < p.len() implies #[trigger] p[j] != SLASH by {
            if j < front.len() {
                assert(front[j] != SLASH);
            }
        }
    }
}

/// An index is the last `/` where a `/` stands at it and none behind it,
/// and there is no `/` at all where none stands anywhere.
pub proof fn lemma_last_slash_is(p: Seq<u8>, i: int)
    requires
        -1 <= i < p.len(),
        i >= 0 ==> p[i] == SLASH,
        forall|j: int| i < j < p.len() ==> #[trigger] p[j] != SLASH,
    ensures
        last_slash(p) == i,
{
    lemma_last_slash(p);
    let found = last_slash(p);
    if found > i {
        assert(p[found] != SLASH);
    }
    if found < i {
        assert(p[i] == SLASH);
    }
}

/// The last name of a path: what stands behind its last `/`.
pub open spec fn leaf(p: Seq<u8>) -> Seq<u8> {
    p.subrange(last_slash(p) + 1, p.len() as int)
}

/// The names that the store derives are its own. The metadata of a node
/// and its staged content lie in the directory of the node, under a last
/// name that begins with a back-tick. So no derived name is a path that the
/// store accepts, and none is the derived name of the other kind of any
/// path that the store accepts.
pub proof fn law_derived_names_are_reserved(root: Seq<u8>, p: Seq<u8>, q: Seq<u8>)
    ensures
        has_tick(sidecar_of(p)),
        has_tick(staging_of(p)),
        last_slash(sidecar_of(p)) == last_slash(p),
        last_slash(staging_of(p)) == last_slash(p),
        leaf(sidecar_of(p)) == seq![TICK] + leaf(p),
        leaf(staging_of(p)) == seq![TICK, TICK] + leaf(p),
        !valid_path(root, sidecar_of(p)),
        !valid_path(root, staging_of(p)),
        !has_tick(p) ==> sidecar_of(p) != staging_of(q),
{
    lemma_last_slash(p);
    let cut = last_slash(p) + 1;
    let one = sidecar_of(p);
    let two = staging_of(p);
    assert(one[cut] == TICK);
    assert(two[cut] == TICK);
    assert forall|j: int| cut - 1 < j < one.len() implies #[trigger] one[j] != SLASH by {
        if j > cut {
            assert(one[j] == p[j - 1]);
        }
    }
    assert forall|j: int| cut - 1 < j < two.len() implies #[trigger] two[j] != SLASH by {
        if j > cut + 1 {
            assert(two[j] == p[j - 2]);
        }
    }
    if cut > 0 {
        assert(one[cut - 1] == p[cut - 1]);
        assert(two[cut - 1] == p[cut - 1]);
    }
    lemma_last_slash_is(one, cut - 1);
    lemma_last_slash_is(two, cut - 1);
    assert(leaf(one) =~= seq![TICK] + leaf(p));
    assert(leaf(two) =~= seq![TICK, TICK] + leaf(p));
    if !has_tick(p) && one == staging_of(q) {
        // the derived name of `p` holds one back-tick, that of `q` holds two in a row
        lemma_last_slash(q);
        let other = staging_of(q);
        let at = last_slash(q) + 1;
        assert(other[at] == TICK && other[at + 1] == TICK);
        if at < cut {
            assert(one[at] == p[at]);
        } else if at == cut {
            assert(one[at + 1] == p[at]);
        } else {
            assert(one[at] == p[at - 1]);
        }
    }
}

/// A node has its derived names to itself: two paths without a back-tick
/// that keep their metadata, or stage their content, under one name are one path.
pub proof fn law_derived_names_are_distinct(p: Seq<u8>, q: Seq<u8>)
    requires
        !has_tick(p),
        !has_tick(q),
    ensures
        sidecar_of(p) == sidecar_of(q) ==> p == q,
        staging_of(p) == staging_of(q) ==> p == q,
{
    law_derived_names_are_reserved(p, p, q);
    law_derived_names_are_reserved(q, q, p);
    lemma_last_slash(p);
    lemma_last_slash(q);
    let cut = last_slash(p) + 1;
    if sidecar_of(p) == sidecar_of(q) {
        let one = sidecar_of(p);
        assert(p.len() == q.len());
        assert forall|j: int| 0 <= j < p.len() implies p[j] == q[j] by {
            if j < cut {
                assert(one[j] == p[j] && one[j] == q[j]);
            } else {
                assert(one[j + 1] == p[j] && one[j + 1] == q[j]);
            }
        }
        assert(p =~= q);
    }
    if staging_of(p) == staging_of(q) {
        let two = staging_of(p);
        assert(p.len() == q.len());
        assert forall|j: int| 0 <= j < p.len() implies p[j] == q[j] by {
            if j < cut {
                assert(two[j] == p[j] && two[j] == q[j]);
            } else {
                assert(two[j + 2] == p[j] && two[j + 2] == q[j]);
            }
        }
        assert(p =~= q);
    }
}

/// A directory holds what is named in it. The path made of the path `dir`
/// of a directory, a `/` and a name without a `/` has `dir` standing before
/// its last `/`, and `dir` is the node that holds it. Where `dir` is empty
/// and the root is `/`, that node is the root: it holds `/name`.
pub proof fn law_holder_of_a_child(root: Seq<u8>, dir: Seq<u8>, name: Seq<u8>)
    requires
        forall|j: int| 0 <= j < name.len() ==> #[trigger] name[j] != SLASH,
    ensures
        last_slash(dir + seq![SLASH] + name) == dir.len(),
        parent_of(dir + seq![SLASH] + name) == dir,
        dir.len() > 0 ==> holder_of(root, dir + seq![SLASH] + name) == dir,
        root == seq![SLASH] ==> holder_of(root, root + name) == root,
{
    let child = dir + seq![SLASH] + name;
    assert(child[dir.len() as int] == SLASH);
    assert forall|j: int| dir.len() < j < child.len() implies #[trigger] child[j] != SLASH by {
        assert(child[j] == name[j - dir.len() - 1]);
    }
    lemma_last_slash_is(child, dir.len() as int);
    assert(child.subrange(0, dir.len() as int) =~= dir);
    if root == seq![SLASH] {
        let top = root + name;
        assert(top[0] == SLASH);
        assert forall|j: int| 0 < j < top.len() implies #[trigger] top[j] != SLASH by {
            assert(top[j] == name[j - 1]);
        }
        lemma_last_slash_is(top, 0);
        assert(parent_of(top) =~= Seq::<u8>::empty());
    }
}

/// Storing a string that was put together from two stores the two, one after the other.
pub proof fn lemma_utf8_concat(a: Seq<char>, b: Seq<char>)
    ensures
        utf8(a + b) == utf8(a) + utf8(b),
    decreases a.len(),
{
    if a.len() == 0 {
        assert(a + b =~= b);
        assert(utf8(a) + utf8(b) =~= utf8(b));
    } else {
        lemma_utf8_concat(a.drop_first(), b);
        assert((a + b).drop_first() =~= a.drop_first() + b);
        assert(utf8(a + b) =~= utf8(a) + utf8(b));
    }
}

/// The bytes of a path tell the path: two strings are the same where they
/// are stored as the same bytes.
pub proof fn law_bytes_tell_the_string(a: Seq<char>, b: Seq<char>)
    ensures
        (utf8(a) == utf8(b)) == (a == b),
{
    encode_utf8_decode_utf8(a);
    encode_utf8_decode_utf8(b);
}

/// The index of the last `/` among `bytes`.
pub fn find_last_slash(bytes: &[u8]) -> (found: Option<usize>)
    ensures
        match found {
            Some(i) => i as int == last_slash(bytes@),
            None => last_slash(bytes@) == -1,
        },
{
    let mut i: usize = bytes.len();
    assert(bytes@.subrange(0, i as int) =~= bytes@);
    while i > 0
        invariant
            i <= bytes.len(),
            last_slash(bytes@) == last_slash(bytes@.subrange(0, i as int)),
        decreases i,
    {
        proof {
            assert(bytes@.subrange(0, i as int).drop_last() =~= bytes@.subrange(0, i - 1));
        }
        if bytes[i - 1] == SLASH {
            return Some(i - 1);
        }
        i -= 1;
    }
    None
}

/// Whether `bytes` begins with `prefix`.
pub fn starts_with(bytes: &[u8], prefix: &[u8]) -> (yes: bool)
    ensures
        yes == prefix@.is_prefix_of(bytes@),
{
    if prefix.len() > bytes.len() {
        return false;
    }
    let mut i: usize = 0;
    while i < prefix.len()
        invariant
            i <= prefix.len() <= bytes.len(),
            forall|j: int| 0 <= j < i ==> bytes@[j] == prefix@[j],
        decreases prefix.len() - i,
    {
        if bytes[i] != prefix[i] {
            return false;
        }
        i += 1;
    }
    assert(prefix@ =~= bytes@.subrange(0, prefix@.len() as int));
    true
}

/// Whether `a` and `b` hold the same bytes.
pub fn same_bytes(a: &[u8], b: &[u8]) -> (yes: bool)
    ensures
        yes == (a@ == b@),
{
    if a.len() != b.len() {
        return false;
    }
    let mut i: usize = 0;
    while i < a.len()
        invariant
            i <= a.len() == b.len(),
            forall|j: int| 0 <= j < i ==> a@[j] == b@[j],
        decreases a.len() - i,
    {
        if a[i] != b[i] {
            return false;
        }
        i += 1;
    }
    assert(a@ =~= b@);
    true
}

/// Whether `bytes` holds two dots in a row.
fn find_dot_dot(bytes: &[u8]) -> (yes: bool)
    ensures
        yes == has_dot_dot(bytes@),
{
    if bytes.len() < 2 {
        return false;
    }
    let mut i: usize = 0;
    while i < bytes.len() - 1
        invariant
            2 <= bytes.len(),
            i <= bytes.len() - 1,
            forall|j: int| 0 <= j < i ==> !(#[trigger] bytes@[j] == DOT && bytes@[j + 1] == DOT),
        decreases bytes.len() - i,
    {
        if bytes[i] == DOT && bytes[i + 1] == DOT {
            return true;
        }
        i += 1;
    }
    false
}

/// Whether `bytes` holds a back-tick.
fn find_tick(bytes: &[u8]) -> (yes: bool)
    ensures
        yes == has_tick(bytes@),
{
    let mut i: usize = 0;
    while i < bytes.len()
        invariant
            i <= bytes.len(),
            forall|j: int| 0 <= j < i ==> bytes@[j] != TICK,
        decreases bytes.len() - i,
    {
        if bytes[i] == TICK {
            return true;
        }
        i += 1;
    }
    false
}

/// In stored text a `/` begins a character, and the next character begins right after it.
proof fn lemma_slash_is_boundary(bytes: Seq<u8>, i: int)
    requires
        valid_utf8(bytes),
        0 <= i < bytes.len(),
        bytes[i] == SLASH,
    ensures
        is_char_boundary(bytes, i),
        valid_utf8(bytes.subrange(i, bytes.len() as int)),
        is_char_boundary(bytes.subrange(i, bytes.len() as int), 1),
{
    is_char_boundary_iff_not_is_continuation_byte(bytes, i);
    valid_utf8_split(bytes, i);
    let rest = bytes.subrange(i, bytes.len() as int);
    assert(rest[0] == SLASH);
    reveal_with_fuel(valid_utf8, 2);
    reveal_with_fuel(is_char_boundary, 2);
}

/// `path` with `mark` put in front of its last name.
fn mark_path(path: &String, mark: &str) -> (named: String)
    ensures
        utf8(named@) == marked(utf8(path@), utf8(mark@)),
{
    let whole = path.as_str();
    let bytes = whole.as_bytes();
    proof {
        encode_utf8_valid_utf8(path@);
    }
    match find_last_slash(bytes) {
        Some(i) => {
            proof {
                lemma_last_slash(bytes@);
                lemma_slash_is_boundary(bytes@, i as int);
            }
            let (head, rest) = whole.split_at(i);
            let (slash, tail) = rest.split_at(1);
            let mut named = String::from_str(head);
            named.append(slash);
            named.append(mark);
            named.append(tail);
            proof {
                lemma_utf8_concat(head@, slash@);
                lemma_utf8_concat(head@ + slash@, mark@);
                lemma_utf8_concat(head@ + slash@ + mark@, tail@);
                let cut = i as int + 1;
                assert(utf8(head@) + utf8(slash@) =~= bytes@.subrange(0, cut));
                assert(utf8(tail@) =~= bytes@.subrange(cut, bytes@.len() as int));
            }
            named
        },
        None => {
            let mut named = String::from_str(mark);
            named.append(whole);
            proof {
                lemma_utf8_concat(mark@, whole@);
                assert(bytes@.subrange(0, 0) + utf8(mark@) =~= utf8(mark@));
                assert(bytes@.subrange(0, bytes@.len() as int) =~= bytes@);
            }
            named
        },
    }
}

/// The volume name of the metadata of the node `path`: `path` with a
/// back-tick in front of its last name.
pub fn file_info_path(path: &String) -> (named: String)
    ensures
        utf8(named@) == sidecar_of(utf8(path@)),
{
    proof {
        reveal_strlit("`");
        is_ascii_chars_encode_utf8("`"@);
        assert(utf8("`"@) =~= seq![TICK]);
    }
    mark_path(path, "`")
}

/// The volume name under which content for the node `path` is staged:
/// `path` with two back-ticks in front of its last name.
pub fn temp_path(path: &String) -> (named: String)
    ensures
        utf8(named@) == staging_of(utf8(path@)),
{
    proof {
        reveal_strlit("``");
        is_ascii_chars_encode_utf8("``"@);
        assert(utf8("``"@) =~= seq![TICK, TICK]);
    }
    mark_path(path, "``")
}

/// The path of the node that holds `path`: what stands before its last `/`.
pub fn parent_path(path: &String) -> (parent: String)
    ensures
        utf8(parent@) == parent_of(utf8(path@)),
{
    let whole = path.as_str();
    let bytes = whole.as_bytes();
    proof {
        encode_utf8_valid_utf8(path@);
    }
    match find_last_slash(bytes) {
        Some(i) => {
            proof {
                lemma_last_slash(bytes@);
                lemma_slash_is_boundary(bytes@, i as int);
            }
            let (head, _) = whole.split_at(i);
            String::from_str(head)
        },
        None => {
            let parent = String::new();
            assert(utf8(parent@) =~= Seq::<u8>::empty());
            parent
        },
    }
}

/// The path of the node that holds `path` under the root `root`.
pub fn holder_path(root: &str, path: &String) -> (holder: String)
    ensures
        utf8(holder@) == holder_of(utf8(root@), utf8(path@)),
{
    let parent = parent_path(path);
    let above = root.as_bytes();
    if parent.as_str().as_bytes().len() == 0 && above.len() == 1 && above[0] == SLASH {
        assert(utf8(root@) =~= seq![SLASH]);
        String::from_str(root)
    } else {
        parent
    }
}

/// Accepts `path` where it is valid under `root`, and refuses every other
/// path with [`ERROR_INVALID_PATH`].
pub fn validate_path(root: &str, path: &String) -> (checked: Result<(), Error>)
    ensures
        checked is Ok <==> valid_path(utf8(root@), utf8(path@)),
        checked matches Err(e) ==> e.code == ERROR_INVALID_PATH,
{
    let bytes = path.as_str().as_bytes();
    let length = bytes.len();
    if length == 0 {
        return Err(Error::new(ERROR_INVALID_PATH, "Path is empty"));
    } else if length > MAX_PATH {
        return Err(Error::new(ERROR_INVALID_PATH, "Path is too long"));
    }
    let prefix = root.as_bytes();
    if !starts_with(bytes, prefix) {
        return Err(Error::new(ERROR_INVALID_PATH, "Not full path"));
    }
    if length > prefix.len() && bytes[length - 1] == SLASH {
        return Err(Error::new(ERROR_INVALID_PATH, "Ends with path separator (/)"));
    }
    if find_dot_dot(bytes) || find_tick(bytes) {
        return Err(Error::new(ERROR_INVALID_PATH, "Path contains invalid characters"));
    }
    Ok(())
}

} // verus!
