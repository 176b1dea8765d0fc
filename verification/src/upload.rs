//! Uploads in pieces: the table of the uploads that are running, one per path.
//!
//! An upload belongs to the identity that began it. Pieces arrive in any
//! order, each with the offset it starts at. An upload that nobody has
//! touched for ten minutes has expired: it is refused, and swept away when
//! the next upload begins.
use crate::path::same_bytes;
use crate::path::utf8;
use crate::principal::Principal;
use std::collections::HashMap;
use vstd::prelude::*;
use vstd::std_specs::hash::*;

verus! {

broadcast use vstd::std_specs::hash::group_hash_axioms;

/// How long an upload may rest untouched, in milliseconds.
pub const UPLOAD_TIMEOUT: u64 = 600_000;

/// An upload that is running.
#[derive(Debug)]
pub struct Uploading {
    /// Who began it.
    pub owner: Principal,
    /// How many bytes it holds.
    pub size: u64,
    /// When it was last touched, in milliseconds.
    pub updated_at: u64,
    /// The media type the content will have.
    pub mimetype: String,
    /// The pieces, each under the offset it starts at.
    pub chunk: HashMap<u64, Vec<u8>>,
}

/// An [`Uploading`] as plain mathematics.
pub struct SessionView {
    pub owner: Seq<u8>,
    pub size: u64,
    pub updated_at: u64,
    pub mimetype: Seq<char>,
    pub chunks: Map<u64, Seq<u8>>,
}

/// The uploads that are running: from the bytes of a path to its upload.
pub type Sessions = Map<Seq<u8>, SessionView>;

/// The pieces of an upload, each as a sequence of bytes.
pub open spec fn chunk_views(chunks: Map<u64, Vec<u8>>) -> Map<u64, Seq<u8>> {
    chunks.map_values(|piece: Vec<u8>| piece@)
}

impl View for Uploading {
    type V = SessionView;

    open spec fn view(&self) -> SessionView {
        SessionView {
            owner: self.owner@,
            size: self.size,
            updated_at: self.updated_at,
            mimetype: self.mimetype@,
            chunks: chunk_views(self.chunk@),
        }
    }
}

/// An upload last touched at `updated_at` has expired at `now`: more than ten minutes lie between.
pub open spec fn expired(updated_at: u64, now: u64) -> bool {
    now - updated_at > UPLOAD_TIMEOUT
}

/// `sessions` without those that have expired at `now`.
pub open spec fn unexpired(sessions: Sessions, now: u64) -> Sessions {
    Map::new(
        |path: Seq<u8>| sessions.contains_key(path) && !expired(sessions[path].updated_at, now),
        |path: Seq<u8>| sessions[path],
    )
}

/// Whether an upload for `path` is running that has not expired at `now`.
pub open spec fn active(sessions: Sessions, path: Seq<u8>, now: u64) -> bool {
    sessions.contains_key(path) && !expired(sessions[path].updated_at, now)
}

impl Uploading {
    /// Whether the upload has expired at `now`.
    pub fn is_expired(&self, now: u64) -> (yes: bool)
        ensures
            yes == expired(self.updated_at, now),
    {
        now > self.updated_at && now - self.updated_at > UPLOAD_TIMEOUT
    }
}

/// The bytes of the path of the `i`-th entry.
spec fn key_at(entries: Seq<(String, Uploading)>, i: int) -> Seq<u8> {
    utf8(entries[i].0@)
}

/// No two entries are for one path.
spec fn distinct_keys(entries: Seq<(String, Uploading)>) -> bool {
    forall|i: int, j: int|
        0 <= i < j < entries.len() ==> #[trigger] key_at(entries, i) != #[trigger] key_at(entries, j)
}

/// Some entry is for `path`.
spec fn holds(entries: Seq<(String, Uploading)>, path: Seq<u8>) -> bool {
    exists|i: int| 0 <= i < entries.len() && #[trigger] key_at(entries, i) == path
}

/// The index of an entry for `path`.
spec fn slot(entries: Seq<(String, Uploading)>, path: Seq<u8>) -> int {
    choose|i: int| 0 <= i < entries.len() && #[trigger] key_at(entries, i) == path
}

/// The uploads that a list of entries stands for.
spec fn sessions_of(entries: Seq<(String, Uploading)>) -> Sessions {
    Map::new(|path: Seq<u8>| holds(entries, path), |path: Seq<u8>| entries[slot(entries, path)].1@)
}

/// Among entries for distinct paths, the upload for the path of an entry is that entry's.
proof fn lemma_entry(entries: Seq<(String, Uploading)>, i: int)
    requires
        distinct_keys(entries),
        0 <= i < entries.len(),
    ensures
        sessions_of(entries).contains_key(key_at(entries, i)),
        sessions_of(entries)[key_at(entries, i)] == entries[i].1@,
        slot(entries, key_at(entries, i)) == i,
{
    let path = key_at(entries, i);
    assert(holds(entries, path));
    let j = slot(entries, path);
    assert(key_at(entries, j) == path);
    if j != i {
        if j < i {
            assert(key_at(entries, j) != key_at(entries, i));
        } else {
            assert(key_at(entries, i) != key_at(entries, j));
        }
    }
}

/// Taking an entry out takes its path out of the uploads, and nothing else.
proof fn lemma_remove_entry(entries: Seq<(String, Uploading)>, i: int)
    requires
        distinct_keys(entries),
        0 <= i < entries.len(),
    ensures
        distinct_keys(entries.remove(i)),
        sessions_of(entries.remove(i)) == sessions_of(entries).remove(key_at(entries, i)),
{
    let rest = entries.remove(i);
    let gone = key_at(entries, i);
    assert forall|a: int, b: int| 0 <= a < b < rest.len() implies #[trigger] key_at(rest, a)
        != #[trigger] key_at(rest, b) by {
        let a0 = if a < i {
            a
        } else {
            a + 1
        };
        let b0 = if b < i {
            b
        } else {
            b + 1
        };
        assert(key_at(rest, a) == key_at(entries, a0));
        assert(key_at(rest, b) == key_at(entries, b0));
    }
    assert forall|path: Seq<u8>| #[trigger] holds(rest, path) <==> (holds(entries, path) && path != gone) by {
        if holds(rest, path) {
            let a = slot(rest, path);
            let a0 = if a < i {
                a
            } else {
                a + 1
            };
            assert(key_at(entries, a0) == path);
            if a0 < i {
                assert(key_at(entries, a0) != key_at(entries, i));
            } else {
                assert(key_at(entries, i) != key_at(entries, a0));
            }
        }
        if holds(entries, path) && path != gone {
            let a0 = slot(entries, path);
            let a = if a0 < i {
                a0
            } else {
                a0 - 1
            };
            assert(key_at(rest, a) == path);
        }
    }
    assert forall|path: Seq<u8>| holds(rest, path) implies sessions_of(rest)[path] == sessions_of(
        entries,
    )[path] by {
        let a = slot(rest, path);
        let a0 = if a < i {
            a
        } else {
            a + 1
        };
        assert(key_at(entries, a0) == path);
        lemma_entry(entries, a0);
    }
    assert(sessions_of(rest) =~= sessions_of(entries).remove(gone));
}

/// Adding an entry for a path that has none adds its upload, and nothing else.
proof fn lemma_push_entry(entries: Seq<(String, Uploading)>, entry: (String, Uploading))
    requires
        distinct_keys(entries),
        !holds(entries, utf8(entry.0@)),
    ensures
        distinct_keys(entries.push(entry)),
        sessions_of(entries.push(entry)) == sessions_of(entries).insert(utf8(entry.0@), entry.1@),
{
    let more = entries.push(entry);
    let path = utf8(entry.0@);
    let n = entries.len() as int;
    assert forall|a: int, b: int| 0 <= a < b < more.len() implies #[trigger] key_at(more, a)
        != #[trigger] key_at(more, b) by {
        assert(key_at(more, a) == key_at(entries, a));
        if b < n {
            assert(key_at(more, b) == key_at(entries, b));
        }
    }
    assert(key_at(more, n) == path);
    lemma_entry(more, n);
    assert forall|other: Seq<u8>| #[trigger] holds(more, other) <==> (holds(entries, other) || other
        == path) by {
        if holds(more, other) {
            let a = slot(more, other);
            if a < n {
                assert(key_at(entries, a) == other);
            }
        }
        if holds(entries, other) {
            let a = slot(entries, other);
            assert(key_at(more, a) == other);
        }
    }
    assert forall|other: Seq<u8>| holds(entries, other) implies sessions_of(more)[other]
        == sessions_of(entries)[other] by {
        let a = slot(entries, other);
        assert(key_at(more, a) == other);
        lemma_entry(more, a);
    }
    assert(sessions_of(more) =~= sessions_of(entries).insert(path, entry.1@));
}

/// The uploads that are running.
#[derive(Debug)]
pub struct UploadTable {
    entries: Vec<(String, Uploading)>,
}

impl View for UploadTable {
    type V = Sessions;

    closed spec fn view(&self) -> Sessions {
        sessions_of(self.entries@)
    }
}

impl UploadTable {
    #[verifier::type_invariant]
    spec fn one_upload_per_path(self) -> bool {
        distinct_keys(self.entries@)
    }

    /// A table in which no upload runs.
    pub fn new() -> (table: UploadTable)
        ensures
            table@ == Map::<Seq<u8>, SessionView>::empty(),
    {
        let table = UploadTable { entries: Vec::new() };
        assert(table@ =~= Map::<Seq<u8>, SessionView>::empty());
        table
    }

    /// Where the entry for `path` stands.
    fn position(&self, path: &str) -> (found: Option<usize>)
        ensures
            match found {
                Some(i) => i < self.entries@.len() && key_at(self.entries@, i as int) == utf8(path@),
                None => !holds(self.entries@, utf8(path@)),
            },
    {
        let wanted = path.as_bytes();
        let mut i: usize = 0;
        while i < self.entries.len()
            invariant
                i <= self.entries.len(),
                wanted@ == utf8(path@),
                forall|j: int| 0 <= j < i ==> #[trigger] key_at(self.entries@, j) != wanted@,
            decreases self.entries.len() - i,
        {
            if same_bytes(self.entries[i].0.as_str().as_bytes(), wanted) {
                return Some(i);
            }
            i += 1;
        }
        None
    }

    /// The upload that runs for `path`.
    pub fn get(&self, path: &str) -> (found: Option<&Uploading>)
        ensures
            match found {
                Some(session) => self@.contains_key(utf8(path@)) && self@[utf8(path@)] == session@,
                None => !self@.contains_key(utf8(path@)),
            },
    {
        match self.position(path) {
            Some(i) => {
                proof {
                    use_type_invariant(self);
                    lemma_entry(self.entries@, i as int);
                }
                Some(&self.entries[i].1)
            },
            None => None,
        }
    }

    /// Takes the upload for `path` out of the table.
    pub fn remove(&mut self, path: &str) -> (taken: Option<Uploading>)
        ensures
            final(self)@ == old(self)@.remove(utf8(path@)),
            match taken {
                Some(session) => old(self)@.contains_key(utf8(path@)) && old(self)@[utf8(path@)]
                    == session@,
                None => !old(self)@.contains_key(utf8(path@)),
            },
    {
        match self.position(path) {
            Some(i) => {
                proof {
                    use_type_invariant(&*self);
                    lemma_entry(self.entries@, i as int);
                    lemma_remove_entry(self.entries@, i as int);
                }
                let mut entries: Vec<(String, Uploading)> = Vec::new();
                core::mem::swap(&mut self.entries, &mut entries);
                let entry = entries.remove(i);
                self.entries = entries;
                Some(entry.1)
            },
            None => {
                assert(self@ =~= self@.remove(utf8(path@)));
                None
            },
        }
    }

    /// Puts `session` into the table as the upload for `path`, in place of any that ran for it.
    pub fn insert(&mut self, path: String, session: Uploading)
        ensures
            final(self)@ == old(self)@.insert(utf8(path@), session@),
    {
        let _ = self.remove(path.as_str());
        proof {
            use_type_invariant(&*self);
            assert(!self@.contains_key(utf8(path@)));
            assert(!holds(self.entries@, utf8(path@)));
            lemma_push_entry(self.entries@, (path, session));
            assert(old(self)@.remove(utf8(path@)).insert(utf8(path@), session@) =~= old(self)@.insert(
                utf8(path@),
                session@,
            ));
        }
        let mut entries: Vec<(String, Uploading)> = Vec::new();
        core::mem::swap(&mut self.entries, &mut entries);
        entries.push((path, session));
        self.entries = entries;
    }

    /// Drops every upload that has expired at `now`.
    pub fn sweep(&mut self, now: u64)
        ensures
            final(self)@ == unexpired(old(self)@, now),
    {
        proof {
            use_type_invariant(&*self);
        }
        let mut entries: Vec<(String, Uploading)> = Vec::new();
        core::mem::swap(&mut self.entries, &mut entries);
        let ghost before = sessions_of(entries@);
        let mut i: usize = 0;
        while i < entries.len()
            invariant
                i <= entries.len(),
                distinct_keys(entries@),
                forall|j: int| 0 <= j < i ==> !expired((#[trigger] entries@[j]).1.updated_at, now),
                forall|path: Seq<u8>| #[trigger]
                    sessions_of(entries@).contains_key(path) ==> before.contains_key(path)
                        && before[path] == sessions_of(entries@)[path],
                forall|path: Seq<u8>|
                    before.contains_key(path) && !expired(before[path].updated_at, now)
                        ==> #[trigger] sessions_of(entries@).contains_key(path),
            decreases entries.len() - i,
        {
            if entries[i].1.is_expired(now) {
                proof {
                    lemma_entry(entries@, i as int);
                    lemma_remove_entry(entries@, i as int);
                }
                let _ = entries.remove(i);
            } else {
                i += 1;
            }
        }
        proof {
            let kept = sessions_of(entries@);
            assert forall|path: Seq<u8>| kept.contains_key(path) implies !expired(
                kept[path].updated_at,
                now,
            ) by {
                let j = slot(entries@, path);
                assert(key_at(entries@, j) == path);
                lemma_entry(entries@, j);
                assert(!expired(entries@[j].1.updated_at, now));
            }
            assert(kept =~= unexpired(before, now));
        }
        self.entries = entries;
    }
}

} // verus!
