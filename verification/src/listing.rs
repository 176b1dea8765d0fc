//! What a directory holds, in order.
use crate::context::Context;
use crate::error::code_of;
use crate::error::Error;
use crate::path::law_derived_names_are_reserved;
use crate::path::leaf;
use crate::path::lemma_utf8_concat;
use crate::path::name_views;
use crate::path::sidecar_of;
use crate::path::staging_of;
use crate::path::utf8;
use crate::path::SLASH;
use crate::path::TICK;
use crate::storage::check_read;
use crate::storage::read_refusal;
use crate::store::Snapshot;
use vstd::prelude::*;
use vstd::string::StringExecFns;
use vstd::utf8::*;

verus! {

/// Dictionary order on byte strings, the order of names in a listing: `a`
/// comes no later than `b`.
pub open spec fn bytes_le(a: Seq<u8>, b: Seq<u8>) -> bool
    decreases a.len(),
{
    if a.len() == 0 {
        true
    } else if b.len() == 0 {
        false
    } else if a[0] != b[0] {
        a[0] < b[0]
    } else {
        bytes_le(a.drop_first(), b.drop_first())
    }
}

/// Of two byte strings one comes no later than the other.
pub proof fn lemma_bytes_le_total(a: Seq<u8>, b: Seq<u8>)
    ensures
        bytes_le(a, b) || bytes_le(b, a),
    decreases a.len(),
{
    if a.len() > 0 && b.len() > 0 && a[0] == b[0] {
        lemma_bytes_le_total(a.drop_first(), b.drop_first());
    }
}

/// Dictionary order carries over a middle term.
pub proof fn lemma_bytes_le_transitive(a: Seq<u8>, b: Seq<u8>, c: Seq<u8>)
    requires
        bytes_le(a, b),
        bytes_le(b, c),
    ensures
        bytes_le(a, c),
    decreases a.len(),
{
    if a.len() > 0 && b.len() > 0 && c.len() > 0 && a[0] == b[0] && b[0] == c[0] {
        lemma_bytes_le_transitive(a.drop_first(), b.drop_first(), c.drop_first());
    }
}

/// Two byte strings of which each comes no later than the other are one.
pub proof fn lemma_bytes_le_antisymmetric(a: Seq<u8>, b: Seq<u8>)
    requires
        bytes_le(a, b),
        bytes_le(b, a),
    ensures
        a == b,
    decreases a.len(),
{
    if a.len() == 0 || b.len() == 0 {
        assert(a =~= b);
    } else {
        lemma_bytes_le_antisymmetric(a.drop_first(), b.drop_first());
        assert(a =~= seq![a[0]] + a.drop_first());
        assert(b =~= seq![b[0]] + b.drop_first());
    }
}

/// Whether `a` comes no later than `b` in the dictionary.
pub fn le_bytes(a: &[u8], b: &[u8]) -> (yes: bool)
    ensures
        yes == bytes_le(a@, b@),
{
    let mut i: usize = 0;
    assert(a@.subrange(0, a@.len() as int) =~= a@);
    assert(b@.subrange(0, b@.len() as int) =~= b@);
    while i < a.len() && i < b.len()
        invariant
            i <= a.len(),
            i <= b.len(),
            bytes_le(a@, b@) == bytes_le(
                a@.subrange(i as int, a@.len() as int),
                b@.subrange(i as int, b@.len() as int),
            ),
        decreases a.len() - i,
    {
        let ghost mine = a@.subrange(i as int, a@.len() as int);
        let ghost theirs = b@.subrange(i as int, b@.len() as int);
        assert(mine[0] == a@[i as int] && theirs[0] == b@[i as int]);
        assert(mine.drop_first() =~= a@.subrange(i + 1, a@.len() as int));
        assert(theirs.drop_first() =~= b@.subrange(i + 1, b@.len() as int));
        if a[i] != b[i] {
            return a[i] < b[i];
        }
        i += 1;
    }
    i == a.len()
}

/// A list of names is in order where each comes no later than those behind it.
pub open spec fn names_in_order(names: Seq<Seq<u8>>) -> bool {
    forall|i: int, j: int| 0 <= i < j < names.len() ==> bytes_le(#[trigger] names[i], #[trigger] names[j])
}

/// The name under which an entry of a directory is listed: a directory with a `/` behind it.
pub open spec fn shown(name: Seq<u8>, is_dir: bool) -> Seq<u8> {
    if is_dir {
        name.push(SLASH)
    } else {
        name
    }
}

/// A name that begins with a back-tick belongs to the store, and is not listed.
pub open spec fn hidden(name: Seq<u8>) -> bool {
    name.len() > 0 && name[0] == TICK
}

/// The names under which the entries of a directory are listed, in the
/// order of the entries: each entry as it is shown, but for the hidden ones.
/// An entry is a name, and whether it names a directory.
pub open spec fn visible(entries: Seq<(Seq<u8>, bool)>) -> Seq<Seq<u8>>
    decreases entries.len(),
{
    if entries.len() == 0 {
        Seq::empty()
    } else {
        let before = visible(entries.drop_last());
        let name = shown(entries.last().0, entries.last().1);
        if hidden(name) {
            before
        } else {
            before.push(name)
        }
    }
}

/// The entries of a directory as plain mathematics.
pub open spec fn entry_views(entries: Seq<(String, bool)>) -> Seq<(Seq<u8>, bool)> {
    entries.map_values(|e: (String, bool)| (utf8(e.0@), e.1))
}

/// Putting one more into a sequence puts one more into what it holds.
pub proof fn lemma_insert_to_multiset<A>(s: Seq<A>, k: int, a: A)
    requires
        0 <= k <= s.len(),
    ensures
        s.insert(k, a).to_multiset() == s.to_multiset().insert(a),
{
    let t = s.insert(k, a);
    assert(t.remove(k) =~= s);
    vstd::seq_lib::to_multiset_remove(t, k);
    assert(t[k] == a);
    t.to_multiset_ensures();
    assert(t.contains(a));
    assert(t.to_multiset() =~= s.to_multiset().insert(a));
}

/// The order tells the listing. Two lists of names in order that hold the
/// same names, each as often, are one list: so what a listing holds leaves
/// no choice of how it looks.
pub proof fn law_order_tells_the_listing(a: Seq<Seq<u8>>, b: Seq<Seq<u8>>)
    requires
        names_in_order(a),
        names_in_order(b),
        a.to_multiset() == b.to_multiset(),
    ensures
        a == b,
    decreases a.len(),
{
    a.to_multiset_ensures();
    b.to_multiset_ensures();
    if a.len() == 0 {
        assert(a =~= b);
    } else {
        assert(a.len() == a.to_multiset().len() && b.len() == b.to_multiset().len());
        assert(a.contains(a[0]));
        assert(b.contains(b[0]));
        assert(a.to_multiset().count(a[0]) > 0);
        assert(b.to_multiset().count(a[0]) > 0);
        assert(b.contains(a[0]));
        assert(b.to_multiset().count(b[0]) > 0);
        assert(a.to_multiset().count(b[0]) > 0);
        assert(a.contains(b[0]));
        let j = choose|j: int| 0 <= j < b.len() && b[j] == a[0];
        let i = choose|i: int| 0 <= i < a.len() && a[i] == b[0];
        lemma_bytes_le_total(a[0], a[0]);
        lemma_bytes_le_total(b[0], b[0]);
        if j > 0 {
            assert(bytes_le(b[0], b[j]));
        }
        if i > 0 {
            assert(bytes_le(a[0], a[i]));
        }
        lemma_bytes_le_antisymmetric(a[0], b[0]);
        let rest_a = a.drop_first();
        let rest_b = b.drop_first();
        assert(rest_a =~= a.remove(0));
        assert(rest_b =~= b.remove(0));
        vstd::seq_lib::to_multiset_remove(a, 0);
        vstd::seq_lib::to_multiset_remove(b, 0);
        assert forall|x: int, y: int| 0 <= x < y < rest_a.len() implies bytes_le(
            #[trigger] rest_a[x],
            #[trigger] rest_a[y],
        ) by {
            assert(rest_a[x] == a[x + 1] && rest_a[y] == a[y + 1]);
        }
        assert forall|x: int, y: int| 0 <= x < y < rest_b.len() implies bytes_le(
            #[trigger] rest_b[x],
            #[trigger] rest_b[y],
        ) by {
            assert(rest_b[x] == b[x + 1] && rest_b[y] == b[y + 1]);
        }
        law_order_tells_the_listing(rest_a, rest_b);
        assert(a =~= seq![a[0]] + rest_a);
        assert(b =~= seq![b[0]] + rest_b);
    }
}

/// A listing shows what is there and hides what belongs to the store: the
/// names it holds are the names of the entries, as they are shown, that do
/// not begin with a back-tick.
pub proof fn law_listing_hides_what_belongs_to_the_store(entries: Seq<(Seq<u8>, bool)>, name: Seq<u8>)
    ensures
        visible(entries).contains(name) <==> !hidden(name) && exists|i: int|
            0 <= i < entries.len() && name == shown((#[trigger] entries[i]).0, entries[i].1),
    decreases entries.len(),
{
    if entries.len() > 0 {
        let before = entries.drop_last();
        let last = shown(entries.last().0, entries.last().1);
        law_listing_hides_what_belongs_to_the_store(before, name);
        let listed = visible(entries);
        if listed.contains(name) {
            let k = choose|k: int| 0 <= k < listed.len() && listed[k] == name;
            if k < visible(before).len() {
                assert(visible(before)[k] == name);
                assert(visible(before).contains(name));
                let i = choose|i: int|
                    0 <= i < before.len() && name == shown((#[trigger] before[i]).0, before[i].1);
                assert(entries[i] == before[i]);
            } else {
                assert(name == last);
                assert(entries[entries.len() - 1] == entries.last());
            }
        }
        if !hidden(name) && exists|i: int|
            0 <= i < entries.len() && name == shown((#[trigger] entries[i]).0, entries[i].1) {
            let i = choose|i: int|
                0 <= i < entries.len() && name == shown((#[trigger] entries[i]).0, entries[i].1);
            if i < before.len() {
                assert(before[i] == entries[i]);
                assert(visible(before).contains(name));
                let k = choose|k: int| 0 <= k < visible(before).len() && visible(before)[k] == name;
                assert(listed[k] == name);
            } else {
                assert(listed[listed.len() - 1] == name);
            }
        }
    }
}

/// The names that the store derives are not listed: the last name of the
/// metadata of a node, and of its staged content, is hidden, as a file and
/// as a directory.
pub proof fn law_derived_names_are_not_listed(p: Seq<u8>, is_dir: bool)
    ensures
        hidden(shown(leaf(sidecar_of(p)), is_dir)),
        hidden(shown(leaf(staging_of(p)), is_dir)),
{
    law_derived_names_are_reserved(p, p, p);
}

/// Whether `name` begins with a back-tick.
pub fn is_hidden(name: &str) -> (yes: bool)
    ensures
        yes == hidden(utf8(name@)),
{
    let bytes = name.as_bytes();
    bytes.len() > 0 && bytes[0] == TICK
}

/// Puts `name` into a list that is in order, at its place.
fn insert_name(names: &mut Vec<String>, name: String)
    requires
        names_in_order(name_views(old(names)@)),
    ensures
        names_in_order(name_views(final(names)@)),
        name_views(final(names)@).to_multiset() == name_views(old(names)@).to_multiset().insert(
            utf8(name@),
        ),
{
    let ghost before = name_views(names@);
    let ghost new = utf8(name@);
    let mut k: usize = 0;
    while k < names.len() && le_bytes(names[k].as_str().as_bytes(), name.as_str().as_bytes())
        invariant
            k <= names.len(),
            names@ == old(names)@,
            before == name_views(names@),
            new == utf8(name@),
            forall|j: int| 0 <= j < k ==> bytes_le(#[trigger] before[j], new),
        decreases names.len() - k,
    {
        k += 1;
    }
    proof {
        let after = before.insert(k as int, new);
        assert forall|i: int, j: int| 0 <= i < j < after.len() implies bytes_le(
            #[trigger] after[i],
            #[trigger] after[j],
        ) by {
            if j < k {
                assert(after[i] == before[i] && after[j] == before[j]);
            } else if j == k {
                assert(after[i] == before[i]);
            } else if i == k {
                assert(after[j] == before[j - 1]);
                assert(!bytes_le(before[k as int], new));
                lemma_bytes_le_total(before[k as int], new);
                if j - 1 > k {
                    assert(bytes_le(before[k as int], before[j - 1]));
                } else {
                    lemma_bytes_le_total(before[k as int], before[k as int]);
                }
                lemma_bytes_le_transitive(new, before[k as int], before[j - 1]);
            } else if i < k {
                assert(after[i] == before[i] && after[j] == before[j - 1]);
            } else {
                assert(after[i] == before[i - 1] && after[j] == before[j - 1]);
            }
        }
        lemma_insert_to_multiset(before, k as int, new);
    }
    names.insert(k, name);
    assert(name_views(names@) =~= before.insert(k as int, new));
}

/// The names under which the entries of a directory are listed, in order.
/// An entry is a name, and whether it names a directory.
pub fn sorted_names(entries: Vec<(String, bool)>) -> (names: Vec<String>)
    ensures
        names_in_order(name_views(names@)),
        name_views(names@).to_multiset() == visible(entry_views(entries@)).to_multiset(),
{
    let ghost all = entry_views(entries@);
    let mut names: Vec<String> = Vec::new();
    let mut i: usize = 0;
    assert(all.subrange(0, 0) =~= Seq::<(Seq<u8>, bool)>::empty());
    assert(name_views(names@) =~= Seq::<Seq<u8>>::empty());
    while i < entries.len()
        invariant
            i <= entries.len(),
            all == entry_views(entries@),
            names_in_order(name_views(names@)),
            name_views(names@).to_multiset() == visible(all.subrange(0, i as int)).to_multiset(),
        decreases entries.len() - i,
    {
        let entry = &entries[i];
        let mut name = entry.0.clone();
        if entry.1 {
            name.append("/");
            proof {
                reveal_strlit("/");
                is_ascii_chars_encode_utf8("/"@);
                assert(utf8("/"@) =~= seq![SLASH]);
                lemma_utf8_concat(entry.0@, "/"@);
                assert(utf8(name@) =~= utf8(entry.0@).push(SLASH));
            }
        }
        proof {
            let upto = all.subrange(0, i + 1);
            assert(upto.drop_last() =~= all.subrange(0, i as int));
            assert(upto.last() == all[i as int]);
            assert(utf8(name@) == shown(all[i as int].0, all[i as int].1));
            visible(all.subrange(0, i as int)).to_multiset_ensures();
        }
        if !is_hidden(name.as_str()) {
            insert_name(&mut names, name);
        }
        i += 1;
    }
    assert(all.subrange(0, entries@.len() as int) =~= all);
    names
}

/// Lists what the directory `path` holds: the names of its entries in
/// order, a directory with a `/` behind its name, and without the names that
/// begin with a back-tick. `entries` is what the volume holds there: each
/// name, and whether it names a directory.
pub fn list_files(ctx: &Context, store: &Snapshot, path: String, entries: Vec<(String, bool)>) -> (reply:
    Result<Vec<String>, Error>)
    ensures
        code_of(reply) == read_refusal(store@, ctx@, utf8(path@)),
        reply matches Ok(names) ==> {
            &&& names_in_order(name_views(names@))
            &&& name_views(names@).to_multiset() == visible(entry_views(entries@)).to_multiset()
        },
{
    match check_read(ctx, store, &path) {
        Err(e) => Err(e),
        Ok(_) => Ok(sorted_names(entries)),
    }
}

} // verus!
