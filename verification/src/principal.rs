//! Identities: who calls, who created a node, who is named in an access list.
//!
//! A principal is an opaque string of at most 29 bytes. Principals are
//! ordered by length first and then byte by byte, which is the order access
//! lists are kept in.
use vstd::prelude::*;

verus! {

/// The longest principal, in bytes.
pub const MAX_PRINCIPAL: usize = 29;

/// An identity. Its view is its bytes.
#[derive(Debug, Clone, Copy, PartialEq, Eq, Hash)]
pub struct Principal {
    len: u8,
    bytes: [u8; 29],
}

/// Dictionary order on two byte strings of one length.
pub open spec fn bytes_before(a: Seq<u8>, b: Seq<u8>) -> bool
    decreases a.len(),
{
    if a.len() == 0 || b.len() == 0 {
        false
    } else if a[0] != b[0] {
        a[0] < b[0]
    } else {
        bytes_before(a.drop_first(), b.drop_first())
    }
}

/// The order of principals: the shorter one first, and of two of one length
/// the one that comes first in the dictionary.
pub open spec fn precedes(a: Seq<u8>, b: Seq<u8>) -> bool {
    a.len() < b.len() || (a.len() == b.len() && bytes_before(a, b))
}

/// No byte string comes before itself.
pub proof fn lemma_bytes_before_irreflexive(a: Seq<u8>)
    ensures
        !bytes_before(a, a),
    decreases a.len(),
{
    if a.len() > 0 {
        lemma_bytes_before_irreflexive(a.drop_first());
    }
}

/// Of two different byte strings of one length, one comes before the other.
pub proof fn lemma_bytes_before_total(a: Seq<u8>, b: Seq<u8>)
    requires
        a.len() == b.len(),
    ensures
        a == b || bytes_before(a, b) || bytes_before(b, a),
        !(bytes_before(a, b) && bytes_before(b, a)),
    decreases a.len(),
{
    if a.len() == 0 {
        assert(a =~= b);
    } else if a[0] == b[0] {
        lemma_bytes_before_total(a.drop_first(), b.drop_first());
        if a.drop_first() == b.drop_first() {
            assert(a =~= seq![a[0]] + a.drop_first());
            assert(b =~= seq![b[0]] + b.drop_first());
        }
    }
}

/// Dictionary order carries over a middle term.
pub proof fn lemma_bytes_before_transitive(a: Seq<u8>, b: Seq<u8>, c: Seq<u8>)
    requires
        a.len() == b.len() == c.len(),
        bytes_before(a, b),
        bytes_before(b, c),
    ensures
        bytes_before(a, c),
    decreases a.len(),
{
    if a.len() > 0 && a[0] == b[0] && b[0] == c[0] {
        lemma_bytes_before_transitive(a.drop_first(), b.drop_first(), c.drop_first());
    }
}

/// The order of principals is a strict total order.
pub proof fn lemma_precedes_is_total_order(a: Seq<u8>, b: Seq<u8>, c: Seq<u8>)
    ensures
        !precedes(a, a),
        a == b || precedes(a, b) || precedes(b, a),
        !(precedes(a, b) && precedes(b, a)),
        precedes(a, b) && precedes(b, c) ==> precedes(a, c),
{
    lemma_bytes_before_irreflexive(a);
    if a.len() == b.len() {
        lemma_bytes_before_total(a, b);
        if b.len() == c.len() && bytes_before(a, b) && bytes_before(b, c) {
            lemma_bytes_before_transitive(a, b, c);
        }
    }
}

impl View for Principal {
    type V = Seq<u8>;

    closed spec fn view(&self) -> Seq<u8> {
        self.bytes@.subrange(0, self.len as int)
    }
}

impl Principal {
    #[verifier::type_invariant]
    spec fn within_capacity(self) -> bool {
        self.len <= 29
    }

    /// The principal with the given bytes; none where they are more than 29.
    pub fn try_from_slice(bytes: &[u8]) -> (made: Option<Principal>)
        ensures
            made is Some <==> bytes@.len() <= MAX_PRINCIPAL,
            made matches Some(p) ==> p@ == bytes@,
    {
        if bytes.len() > 29 {
            return None;
        }
        let mut held = [0u8; 29];
        let mut i: usize = 0;
        while i < bytes.len()
            invariant
                i <= bytes.len() <= 29,
                forall|j: int| 0 <= j < i ==> held@[j] == bytes@[j],
            decreases bytes.len() - i,
        {
            held[i] = bytes[i];
            i += 1;
        }
        let made = Principal { len: bytes.len() as u8, bytes: held };
        assert(made@ =~= bytes@);
        Some(made)
    }

    /// The bytes of the principal.
    pub fn to_vec(&self) -> (bytes: Vec<u8>)
        ensures
            bytes@ == self@,
    {
        proof {
            use_type_invariant(self);
        }
        let mut bytes: Vec<u8> = Vec::new();
        let mut i: usize = 0;
        while i < self.len as usize
            invariant
                i <= self.len <= 29,
                bytes@ == self.bytes@.subrange(0, i as int),
            decreases self.len - i,
        {
            bytes.push(self.bytes[i]);
            assert(bytes@ =~= self.bytes@.subrange(0, i + 1));
            i += 1;
        }
        bytes
    }

    /// The identity of a caller who has not authenticated: the one byte 4.
    pub fn anonymous() -> (nobody: Principal)
        ensures
            nobody@ == seq![4u8],
    {
        let mut held = [0u8; 29];
        held[0] = 4;
        let nobody = Principal { len: 1, bytes: held };
        assert(nobody@ =~= seq![4u8]);
        nobody
    }

    /// Whether this is the anonymous identity.
    pub fn is_anonymous(&self) -> (yes: bool)
        ensures
            yes == (self@ == seq![4u8]),
    {
        proof {
            use_type_invariant(self);
        }
        let yes = self.len == 1 && self.bytes[0] == 4;
        assert(yes == (self@ =~= seq![4u8])) by {
            if self.len == 1 {
                assert(self@[0] == self.bytes@[0]);
            }
        }
        yes
    }

    /// Whether the two are one identity.
    pub fn same(&self, other: &Principal) -> (yes: bool)
        ensures
            yes == (self@ == other@),
    {
        proof {
            use_type_invariant(self);
            use_type_invariant(other);
        }
        assert(self@.len() == self.len && other@.len() == other.len);
        if self.len != other.len {
            return false;
        }
        let mut i: usize = 0;
        while i < self.len as usize
            invariant
                i <= self.len == other.len <= 29,
                forall|j: int| 0 <= j < i ==> self.bytes@[j] == other.bytes@[j],
            decreases self.len - i,
        {
            if self.bytes[i] != other.bytes[i] {
                assert(self@[i as int] != other@[i as int]);
                return false;
            }
            i += 1;
        }
        assert(self@ =~= other@);
        true
    }

    /// Whether this principal comes before `other` in the order of principals.
    pub fn lt(&self, other: &Principal) -> (yes: bool)
        ensures
            yes == precedes(self@, other@),
    {
        proof {
            use_type_invariant(self);
            use_type_invariant(other);
        }
        assert(self@.len() == self.len && other@.len() == other.len);
        if self.len != other.len {
            return self.len < other.len;
        }
        let mut i: usize = 0;
        assert(self@.subrange(0, self.len as int) =~= self@);
        assert(other@.subrange(0, self.len as int) =~= other@);
        while i < self.len as usize
            invariant
                i <= self.len == other.len <= 29,
                bytes_before(self@, other@) == bytes_before(
                    self@.subrange(i as int, self.len as int),
                    other@.subrange(i as int, self.len as int),
                ),
            decreases self.len - i,
        {
            let ghost mine = self@.subrange(i as int, self.len as int);
            let ghost theirs = other@.subrange(i as int, self.len as int);
            assert(mine[0] == self.bytes@[i as int]);
            assert(theirs[0] == other.bytes@[i as int]);
            assert(mine.drop_first() =~= self@.subrange(i + 1, self.len as int));
            assert(theirs.drop_first() =~= other@.subrange(i + 1, self.len as int));
            if self.bytes[i] != other.bytes[i] {
                return self.bytes[i] < other.bytes[i];
            }
            i += 1;
        }
        false
    }
}

} // verus!
