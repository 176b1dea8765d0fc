//! Metadata as a request sees it.
//!
//! The store never reads a volume. Whoever serves a request reads the
//! records that the request depends on and hands them over in a
//! [`Snapshot`]. A path that the snapshot does not hold counts as a node
//! that does not exist.
use crate::metadata::FileInfo;
use crate::metadata::FileInfoView;
use crate::path::same_bytes;
use crate::path::utf8;
use vstd::prelude::*;

verus! {

/// The metadata of the nodes of a volume: from the bytes of a path to the record of its node.
pub type Records = Map<Seq<u8>, FileInfoView>;

/// The records that a list of readings stands for. Of two readings of one path the later one counts.
pub open spec fn records_of(entries: Seq<(String, FileInfo)>) -> Records
    decreases entries.len(),
{
    if entries.len() == 0 {
        Map::empty()
    } else {
        records_of(entries.drop_last()).insert(utf8(entries.last().0@), entries.last().1@)
    }
}

/// Metadata read from a volume: the records of the nodes that were found.
pub struct Snapshot {
    entries: Vec<(String, FileInfo)>,
}

impl View for Snapshot {
    type V = Records;

    closed spec fn view(&self) -> Records {
        records_of(self.entries@)
    }
}

impl Snapshot {
    /// A snapshot that holds no record.
    pub fn new() -> (empty: Snapshot)
        ensures
            empty@ == Map::<Seq<u8>, FileInfoView>::empty(),
    {
        Snapshot { entries: Vec::new() }
    }

    /// Records that the node `path` has the metadata `info`.
    pub fn put(&mut self, path: String, info: FileInfo)
        ensures
            final(self)@ == old(self)@.insert(utf8(path@), info@),
    {
        let ghost before = self.entries@;
        self.entries.push((path, info));
        assert(self.entries@.drop_last() =~= before);
    }

    /// The record of the node `path`, where the snapshot holds one.
    pub fn get(&self, path: &str) -> (found: Option<&FileInfo>)
        ensures
            match found {
                Some(info) => self@.contains_key(utf8(path@)) && self@[utf8(path@)] == info@,
                None => !self@.contains_key(utf8(path@)),
            },
    {
        let wanted = path.as_bytes();
        let mut i: usize = self.entries.len();
        assert(self.entries@.subrange(0, i as int) =~= self.entries@);
        while i > 0
            invariant
                i <= self.entries.len(),
                wanted@ == utf8(path@),
                self@.contains_key(wanted@) == records_of(
                    self.entries@.subrange(0, i as int),
                ).contains_key(wanted@),
                self@.contains_key(wanted@) ==> self@[wanted@] == records_of(
                    self.entries@.subrange(0, i as int),
                )[wanted@],
            decreases i,
        {
            proof {
                let upto = self.entries@.subrange(0, i as int);
                assert(upto.drop_last() =~= self.entries@.subrange(0, i - 1));
                assert(upto.last() == self.entries@[i - 1]);
            }
            let entry = &self.entries[i - 1];
            if same_bytes(entry.0.as_str().as_bytes(), wanted) {
                return Some(&entry.1);
            }
            i -= 1;
        }
        None
    }
}

} // verus!
