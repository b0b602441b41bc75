//! Content-addressed identifiers.

use vstd::prelude::*;

use crate::order;
use crate::order::{rel_bytes, Key, Rel};
use crate::ordset::Duplicate;

verus! {

/// The identity of one canonical fact: the digest of its content.
#[derive(Clone, Copy, PartialEq, Eq, PartialOrd, Ord, Hash, Debug)]
pub struct FactId {
    bytes: [u8; 32],
}

impl FactId {
    pub closed spec fn digest(self) -> Seq<u8> {
        self.bytes@
    }

    pub fn from_bytes(bytes: [u8; 32]) -> (r: Self)
        ensures
            r.digest() == bytes@,
    {
        FactId { bytes }
    }

    pub fn as_bytes(&self) -> (r: &[u8; 32])
        ensures
            r@ == self.digest(),
    {
        &self.bytes
    }

    pub fn same(&self, other: &FactId) -> (r: bool)
        ensures
            r <==> *self == *other,
    {
        match self.relate(other) {
            Rel::Same => true,
            _ => false,
        }
    }

    /// An identifier is its digest.
    pub proof fn lemma_digest(a: FactId, b: FactId)
        ensures
            a.digest().len() == 32,
            a.digest() == b.digest() ==> a == b,
    {
        assert(a.bytes@.len() == 32);
        if a.bytes@ == b.bytes@ {
            assert(a.bytes =~= b.bytes);
        }
    }
}

impl Key for FactId {
    closed spec fn rank(self) -> Seq<int> {
        order::ints(self.bytes@)
    }

    proof fn rank_injective(a: Self, b: Self) {
        order::lemma_ints_injective(a.bytes@, b.bytes@);
        assert(a.bytes =~= b.bytes);
    }

    fn relate(&self, other: &Self) -> (r: Rel) {
        proof {
            if self.bytes@ == other.bytes@ {
                assert(self.bytes =~= other.bytes);
            }
        }
        rel_bytes(&self.bytes, &other.bytes)
    }
}

impl View for FactId {
    type V = FactId;

    open spec fn view(&self) -> FactId {
        *self
    }
}

impl Duplicate for FactId {
    fn duplicate(&self) -> (r: Self) {
        *self
    }
}

impl FactId {
    /// Fact identifiers are ordered as their digests are, byte by byte.
    pub proof fn lemma_order(a: FactId, b: FactId)
        ensures
            order::before(a, b) <==> order::lex_lt(
                order::ints(a.digest()),
                order::ints(b.digest()),
            ),
    {
    }
}

/// The identity of one mesh context.
#[derive(Clone, Copy, PartialEq, Eq, PartialOrd, Ord, Hash, Debug)]
pub struct MeshContextId {
    bytes: [u8; 32],
}

impl MeshContextId {
    pub closed spec fn digest(self) -> Seq<u8> {
        self.bytes@
    }

    pub fn from_bytes(bytes: [u8; 32]) -> (r: Self)
        ensures
            r.digest() == bytes@,
    {
        MeshContextId { bytes }
    }

    pub fn as_bytes(&self) -> (r: &[u8; 32])
        ensures
            r@ == self.digest(),
    {
        &self.bytes
    }

    pub fn same(&self, other: &MeshContextId) -> (r: bool)
        ensures
            r <==> *self == *other,
    {
        proof {
            if self.bytes@ == other.bytes@ {
                assert(self.bytes =~= other.bytes);
            }
        }
        match rel_bytes(&self.bytes, &other.bytes) {
            Rel::Same => true,
            _ => false,
        }
    }

    /// An identifier is its digest.
    pub proof fn lemma_digest(a: MeshContextId, b: MeshContextId)
        ensures
            a.digest().len() == 32,
            a.digest() == b.digest() ==> a == b,
    {
        assert(a.bytes@.len() == 32);
        if a.bytes@ == b.bytes@ {
            assert(a.bytes =~= b.bytes);
        }
    }
}

} // verus!
