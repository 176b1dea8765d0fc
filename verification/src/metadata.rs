//! The record kept beside every node, and the three access lists in it.
use crate::principal::precedes;
use crate::principal::lemma_precedes_is_total_order;
use crate::principal::Principal;
use vstd::prelude::*;
use vstd::slice::slice_to_vec;
use vstd::string::StringExecFns;

verus! {

/// The media type that marks a node as a directory.
pub const MIMETYPE_DIRECTORY: &'static str = "canistorage/directory";

/// What an identity may be allowed to do with a node.
#[derive(Debug, Clone, Copy, PartialEq, Eq, Structural)]
pub enum Capability {
    /// Change the access lists.
    Manage,
    /// Read content and metadata.
    Read,
    /// Create, replace and delete.
    Write,
}

/// The metadata of a node.
#[derive(Debug, Clone)]
pub struct FileInfo {
    /// Length of the content in bytes; 0 for a directory.
    pub size: u64,
    /// Who created the node.
    pub creator: Principal,
    /// When it was created, in milliseconds.
    pub created_at: u64,
    /// Who wrote it last.
    pub updater: Principal,
    /// When it was last written, in milliseconds.
    pub updated_at: u64,
    /// Its media type; [`MIMETYPE_DIRECTORY`] for a directory.
    pub mimetype: String,
    /// Who may change the access lists.
    pub manageable: Vec<Principal>,
    /// Who may read.
    pub readable: Vec<Principal>,
    /// Who may write.
    pub writable: Vec<Principal>,
    /// SHA-256 of the content, where it was hashed.
    pub sha256: Option<[u8; 32]>,
    /// Reserved.
    pub signature: Option<Vec<u8>>,
}

/// A [`FileInfo`] as plain mathematics: identities as their bytes, lists as sequences.
pub struct FileInfoView {
    pub size: u64,
    pub creator: Seq<u8>,
    pub created_at: u64,
    pub updater: Seq<u8>,
    pub updated_at: u64,
    pub mimetype: Seq<char>,
    pub manageable: Seq<Seq<u8>>,
    pub readable: Seq<Seq<u8>>,
    pub writable: Seq<Seq<u8>>,
    pub sha256: Option<Seq<u8>>,
    pub signature: Option<Seq<u8>>,
}

/// The identities of a list, each as its bytes.
pub open spec fn ids(list: Seq<Principal>) -> Seq<Seq<u8>> {
    list.map_values(|p: Principal| p@)
}

/// A digest as a sequence of bytes.
pub open spec fn digest_view(digest: Option<[u8; 32]>) -> Option<Seq<u8>> {
    match digest {
        Some(d) => Some(d@),
        None => None,
    }
}

/// An optional byte string as a sequence of bytes.
pub open spec fn bytes_view(bytes: Option<Vec<u8>>) -> Option<Seq<u8>> {
    match bytes {
        Some(b) => Some(b@),
        None => None,
    }
}

impl View for FileInfo {
    type V = FileInfoView;

    open spec fn view(&self) -> FileInfoView {
        FileInfoView {
            size: self.size,
            creator: self.creator@,
            created_at: self.created_at,
            updater: self.updater@,
            updated_at: self.updated_at,
            mimetype: self.mimetype@,
            manageable: ids(self.manageable@),
            readable: ids(self.readable@),
            writable: ids(self.writable@),
            sha256: digest_view(self.sha256),
            signature: bytes_view(self.signature),
        }
    }
}

/// An access list is in order where each entry comes before the next. Such a
/// list names nobody twice.
pub open spec fn in_order(list: Seq<Seq<u8>>) -> bool {
    forall|i: int, j: int| 0 <= i < j < list.len() ==> precedes(#[trigger] list[i], #[trigger] list[j])
}

/// Where `who` goes in `list`: behind the leading entries that come before it.
pub open spec fn place_of(list: Seq<Seq<u8>>, who: Seq<u8>) -> int
    decreases list.len(),
{
    if list.len() == 0 || !precedes(list[0], who) {
        0
    } else {
        1 + place_of(list.drop_first(), who)
    }
}

/// `list` with `who` granted: unchanged where `who` is named in it already,
/// else with `who` put in at its place.
pub open spec fn with_principal(list: Seq<Seq<u8>>, who: Seq<u8>) -> Seq<Seq<u8>> {
    if list.contains(who) {
        list
    } else {
        list.insert(place_of(list, who), who)
    }
}

/// `list` with `who` revoked: every entry but those that name `who`, in their order.
pub open spec fn without_principal(list: Seq<Seq<u8>>, who: Seq<u8>) -> Seq<Seq<u8>> {
    list.filter(|p: Seq<u8>| p != who)
}

impl FileInfoView {
    /// The access list for `cap`.
    pub open spec fn list(self, cap: Capability) -> Seq<Seq<u8>> {
        match cap {
            Capability::Manage => self.manageable,
            Capability::Read => self.readable,
            Capability::Write => self.writable,
        }
    }

    /// Whether the record itself grants `cap` to `who`.
    pub open spec fn grants(self, who: Seq<u8>, cap: Capability) -> bool {
        self.list(cap).contains(who)
    }

    /// Whether the node is a directory.
    pub open spec fn is_dir(self) -> bool {
        self.mimetype == MIMETYPE_DIRECTORY@
    }

    /// The three access lists are in order.
    pub open spec fn well_formed(self) -> bool {
        &&& in_order(self.manageable)
        &&& in_order(self.readable)
        &&& in_order(self.writable)
    }

    /// The record with `who` granted each capability whose flag is set.
    pub open spec fn granting(self, who: Seq<u8>, manage: bool, read: bool, write: bool) -> FileInfoView {
        FileInfoView {
            manageable: if manage {
                with_principal(self.manageable, who)
            } else {
                self.manageable
            },
            readable: if read {
                with_principal(self.readable, who)
            } else {
                self.readable
            },
            writable: if write {
                with_principal(self.writable, who)
            } else {
                self.writable
            },
            ..self
        }
    }

    /// The record with `who` revoked each capability whose flag is set.
    pub open spec fn revoking(self, who: Seq<u8>, manage: bool, read: bool, write: bool) -> FileInfoView {
        FileInfoView {
            manageable: if manage {
                without_principal(self.manageable, who)
            } else {
                self.manageable
            },
            readable: if read {
                without_principal(self.readable, who)
            } else {
                self.readable
            },
            writable: if write {
                without_principal(self.writable, who)
            } else {
                self.writable
            },
            ..self
        }
    }
}

/// Where `who` goes in a list lies inside it or at its end, every entry
/// before that place comes before `who`, and the entry at it does not.
pub proof fn lemma_place_of(list: Seq<Seq<u8>>, who: Seq<u8>)
    ensures
        0 <= place_of(list, who) <= list.len(),
        forall|j: int| 0 <= j < place_of(list, who) ==> precedes(#[trigger] list[j], who),
        place_of(list, who) < list.len() ==> !precedes(list[place_of(list, who)], who),
    decreases list.len(),
{
    if list.len() > 0 && precedes(list[0], who) {
        let rest = list.drop_first();
        lemma_place_of(rest, who);
        assert forall|j: int| 0 <= j < place_of(list, who) implies precedes(
            #[trigger] list[j],
            who,
        ) by {
            if j > 0 {
                assert(list[j] == rest[j - 1]);
            }
        }
    }
}

/// Granting keeps a list in order, names `who` in it, and names nobody else
/// who was not named before.
pub proof fn lemma_with_principal(list: Seq<Seq<u8>>, who: Seq<u8>)
    ensures
        with_principal(list, who).contains(who),
        forall|p: Seq<u8>| #[trigger]
            with_principal(list, who).contains(p) <==> list.contains(p) || p == who,
        in_order(list) ==> in_order(with_principal(list, who)),
{
    let out = with_principal(list, who);
    if !list.contains(who) {
        let k = place_of(list, who);
        lemma_place_of(list, who);
        assert(out[k] == who);
        assert forall|p: Seq<u8>| #[trigger] out.contains(p) <==> list.contains(p) || p == who by {
            if out.contains(p) {
                let i = choose|i: int| 0 <= i < out.len() && out[i] == p;
                if i < k {
                    assert(list[i] == p);
                } else if i > k {
                    assert(list[i - 1] == p);
                }
            }
            if list.contains(p) {
                let i = choose|i: int| 0 <= i < list.len() && list[i] == p;
                if i < k {
                    assert(out[i] == p);
                } else {
                    assert(out[i + 1] == p);
                }
            }
        }
        if in_order(list) {
            assert forall|i: int, j: int| 0 <= i < j < out.len() implies precedes(
                #[trigger] out[i],
                #[trigger] out[j],
            ) by {
                if j < k {
                    assert(out[i] == list[i] && out[j] == list[j]);
                } else if j == k {
                    assert(out[i] == list[i]);
                } else if i == k {
                    // out[j] is list[j - 1], which stands at or behind the place of `who`
                    assert(out[j] == list[j - 1]);
                    assert(!precedes(list[k], who));
                    assert(list[k] != who);
                    lemma_precedes_is_total_order(who, list[k], list[j - 1]);
                    if j - 1 > k {
                        assert(precedes(list[k], list[j - 1]));
                    }
                } else if i < k {
                    assert(out[i] == list[i] && out[j] == list[j - 1]);
                } else {
                    assert(out[i] == list[i - 1] && out[j] == list[j - 1]);
                }
            }
        }
    }
}

/// Revoking keeps a list in order, no longer names `who`, and keeps everybody else.
pub proof fn lemma_without_principal(list: Seq<Seq<u8>>, who: Seq<u8>)
    ensures
        !without_principal(list, who).contains(who),
        forall|p: Seq<u8>| #[trigger]
            without_principal(list, who).contains(p) <==> list.contains(p) && p != who,
        in_order(list) ==> in_order(without_principal(list, who)),
        !list.contains(who) ==> without_principal(list, who) == list,
    decreases list.len(),
{
    reveal(Seq::filter);
    let keep = |p: Seq<u8>| p != who;
    let out = without_principal(list, who);
    if list.len() > 0 {
        let front = list.drop_last();
        let last = list.last();
        lemma_without_principal(front, who);
        let kept = without_principal(front, who);
        assert(out == if keep(last) {
            kept.push(last)
        } else {
            kept
        });
        assert forall|p: Seq<u8>| #[trigger] out.contains(p) <==> list.contains(p) && p != who by {
            if out.contains(p) {
                let i = choose|i: int| 0 <= i < out.len() && out[i] == p;
                if i < kept.len() {
                    assert(kept[i] == p);
                    assert(kept.contains(p));
                    let j = choose|j: int| 0 <= j < front.len() && front[j] == p;
                    assert(list[j] == p);
                } else {
                    assert(list[list.len() - 1] == p);
                }
            }
            if list.contains(p) && p != who {
                let j = choose|j: int| 0 <= j < list.len() && list[j] == p;
                if j < front.len() {
                    assert(front[j] == p);
                    assert(kept.contains(p));
                    let i = choose|i: int| 0 <= i < kept.len() && kept[i] == p;
                    assert(out[i] == p);
                } else {
                    assert(out[out.len() - 1] == p);
                }
            }
        }
        if in_order(list) {
            assert(in_order(front)) by {
                assert forall|i: int, j: int| 0 <= i < j < front.len() implies precedes(
                    #[trigger] front[i],
                    #[trigger] front[j],
                ) by {
                    assert(front[i] == list[i] && front[j] == list[j]);
                }
            }
            assert forall|i: int, j: int| 0 <= i < j < out.len() implies precedes(
                #[trigger] out[i],
                #[trigger] out[j],
            ) by {
                if j < kept.len() {
                    assert(out[i] == kept[i] && out[j] == kept[j]);
                } else {
                    assert(kept[i] == out[i]);
                    assert(kept.contains(kept[i]));
                    let m = choose|m: int| 0 <= m < front.len() && front[m] == kept[i];
                    assert(list[m] == kept[i]);
                    assert(precedes(list[m], list[list.len() - 1]));
                }
            }
        }
        if !list.contains(who) {
            assert(!front.contains(who)) by {
                if front.contains(who) {
                    let j = choose|j: int| 0 <= j < front.len() && front[j] == who;
                    assert(list[j] == who);
                }
            }
            assert(last != who) by {
                assert(list[list.len() - 1] == last);
            }
            assert(out =~= list);
        }
    } else {
        assert(out =~= list);
    }
}

/// A copy of a list of identities.
pub fn copy_principals(list: &Vec<Principal>) -> (copy: Vec<Principal>)
    ensures
        copy@ == list@,
{
    let mut copy: Vec<Principal> = Vec::new();
    let mut i: usize = 0;
    while i < list.len()
        invariant
            i <= list.len(),
            copy@ == list@.subrange(0, i as int),
        decreases list.len() - i,
    {
        copy.push(list[i]);
        assert(copy@ =~= list@.subrange(0, i + 1));
        i += 1;
    }
    assert(list@.subrange(0, list@.len() as int) =~= list@);
    copy
}

/// Whether `list` names `who`.
pub fn names(list: &Vec<Principal>, who: &Principal) -> (yes: bool)
    ensures
        yes == ids(list@).contains(who@),
{
    let mut i: usize = 0;
    while i < list.len()
        invariant
            i <= list.len(),
            forall|j: int| 0 <= j < i ==> ids(list@)[j] != who@,
        decreases list.len() - i,
    {
        if list[i].same(who) {
            assert(ids(list@)[i as int] == who@);
            return true;
        }
        i += 1;
    }
    false
}

/// Grants `who` a place in `list`: nothing changes where `who` is named
/// already. A list in order stays in order.
pub fn grant(list: &mut Vec<Principal>, who: Principal)
    ensures
        ids(final(list)@) == with_principal(ids(old(list)@), who@),
        ids(final(list)@).contains(who@),
        in_order(ids(old(list)@)) ==> in_order(ids(final(list)@)),
{
    proof {
        lemma_with_principal(ids(list@), who@);
    }
    if names(list, &who) {
        return ;
    }
    let ghost before = ids(list@);
    let mut k: usize = 0;
    assert(before.subrange(0, before.len() as int) =~= before);
    while k < list.len() && list[k].lt(&who)
        invariant
            k <= list.len(),
            list@ == old(list)@,
            before == ids(list@),
            before.len() == list.len(),
            place_of(before, who@) == k + place_of(before.subrange(k as int, before.len() as int), who@),
        decreases list.len() - k,
    {
        proof {
            let rest = before.subrange(k as int, before.len() as int);
            assert(rest[0] == before[k as int]);
            assert(rest.drop_first() =~= before.subrange(k + 1, before.len() as int));
        }
        k += 1;
    }
    proof {
        let rest = before.subrange(k as int, before.len() as int);
        if k < list.len() {
            assert(rest[0] == before[k as int]);
        }
        assert(place_of(before, who@) == k);
    }
    list.insert(k, who);
    assert(ids(list@) =~= before.insert(k as int, who@));
}

/// Revokes `who` from `list`: every entry that names `who` leaves. A list
/// in order stays in order.
pub fn revoke(list: &mut Vec<Principal>, who: Principal)
    ensures
        ids(final(list)@) == without_principal(ids(old(list)@), who@),
        !ids(final(list)@).contains(who@),
        in_order(ids(old(list)@)) ==> in_order(ids(final(list)@)),
{
    let ghost before = ids(list@);
    proof {
        lemma_without_principal(before, who@);
    }
    let ghost keep = |p: Seq<u8>| p != who@;
    let mut kept: Vec<Principal> = Vec::new();
    let mut i: usize = 0;
    proof {
        reveal(Seq::filter);
        assert(before.subrange(0, 0) =~= Seq::<Seq<u8>>::empty());
    }
    while i < list.len()
        invariant
            i <= list.len(),
            list@ == old(list)@,
            before == ids(list@),
            keep == |p: Seq<u8>| p != who@,
            ids(kept@) == before.subrange(0, i as int).filter(keep),
        decreases list.len() - i,
    {
        proof {
            reveal(Seq::filter);
            let upto = before.subrange(0, i + 1);
            assert(upto.drop_last() =~= before.subrange(0, i as int));
            assert(upto.last() == before[i as int]);
        }
        if !list[i].same(&who) {
            kept.push(list[i]);
            assert(ids(kept@) =~= before.subrange(0, i as int).filter(keep).push(before[i as int]));
        }
        i += 1;
    }
    assert(before.subrange(0, before.len() as int) =~= before);
    *list = kept;
}

impl FileInfo {
    /// Whether the node is a directory.
    pub fn is_dir(&self) -> (yes: bool)
        ensures
            yes == self@.is_dir(),
    {
        let sentinel = String::from_str(MIMETYPE_DIRECTORY);
        self.mimetype == sentinel
    }

    /// Whether the record itself grants `cap` to `who`.
    pub fn grants(&self, who: &Principal, cap: Capability) -> (yes: bool)
        ensures
            yes == self@.grants(who@, cap),
    {
        match cap {
            Capability::Manage => names(&self.manageable, who),
            Capability::Read => names(&self.readable, who),
            Capability::Write => names(&self.writable, who),
        }
    }

    /// A copy of the record.
    pub fn duplicate(&self) -> (copy: FileInfo)
        ensures
            copy@ == self@,
    {
        let signature = match &self.signature {
            Some(bytes) => Some(slice_to_vec(bytes.as_slice())),
            None => None,
        };
        FileInfo {
            size: self.size,
            creator: self.creator,
            created_at: self.created_at,
            updater: self.updater,
            updated_at: self.updated_at,
            mimetype: self.mimetype.clone(),
            manageable: copy_principals(&self.manageable),
            readable: copy_principals(&self.readable),
            writable: copy_principals(&self.writable),
            sha256: self.sha256,
            signature,
        }
    }
}

/// What a caller may do with a node.
#[derive(Debug, Clone)]
pub struct Permission {
    pub manageable: bool,
    pub writable: bool,
    pub readable: bool,
}

/// The metadata of a node without its access lists and its signature.
#[derive(Debug, Clone)]
pub struct Info {
    pub size: u64,
    pub creator: Principal,
    pub created_at: u64,
    pub updater: Principal,
    pub updated_at: u64,
    pub mimetype: String,
    pub sha256: Option<[u8; 32]>,
}

/// An [`Info`] as plain mathematics.
pub struct InfoView {
    pub size: u64,
    pub creator: Seq<u8>,
    pub created_at: u64,
    pub updater: Seq<u8>,
    pub updated_at: u64,
    pub mimetype: Seq<char>,
    pub sha256: Option<Seq<u8>>,
}

impl View for Info {
    type V = InfoView;

    open spec fn view(&self) -> InfoView {
        InfoView {
            size: self.size,
            creator: self.creator@,
            created_at: self.created_at,
            updater: self.updater@,
            updated_at: self.updated_at,
            mimetype: self.mimetype@,
            sha256: digest_view(self.sha256),
        }
    }
}

impl FileInfoView {
    /// What [`Info`] shows of the record.
    pub open spec fn info(self) -> InfoView {
        InfoView {
            size: self.size,
            creator: self.creator,
            created_at: self.created_at,
            updater: self.updater,
            updated_at: self.updated_at,
            mimetype: self.mimetype,
            sha256: self.sha256,
        }
    }
}

/// One piece of a file's content, as a ranged read returns it.
#[derive(Debug, Clone)]
pub struct Download {
    /// Length of the whole content.
    pub size: u64,
    /// Where the next piece begins: the offset asked for plus the bytes returned.
    pub downloaded_at: u64,
    /// The bytes read.
    pub chunk: Vec<u8>,
    /// The digest of the whole content, given with the last piece only.
    pub sha256: Option<[u8; 32]>,
}

/// A [`Download`] as plain mathematics.
pub struct DownloadView {
    pub size: u64,
    pub downloaded_at: u64,
    pub chunk: Seq<u8>,
    pub sha256: Option<Seq<u8>>,
}

impl View for Download {
    type V = DownloadView;

    open spec fn view(&self) -> DownloadView {
        DownloadView {
            size: self.size,
            downloaded_at: self.downloaded_at,
            chunk: self.chunk@,
            sha256: digest_view(self.sha256),
        }
    }
}

} // verus!
