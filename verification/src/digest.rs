//! 32-byte hash values and the keccak-256 node combiner.

use vstd::prelude::*;

verus! {

broadcast use vstd::array::group_array_axioms;

/// A 32-byte hash value: a Merkle leaf or an internal tree node.
#[derive(Clone, Copy, Debug)]
pub struct Digest {
    pub bytes: [u8; 32],
}

impl View for Digest {
    type V = Seq<u8>;

    open spec fn view(&self) -> Seq<u8> {
        self.bytes@
    }
}

/// The all-zero 32-byte value, standing for an absent leaf.
pub open spec fn zero_leaf() -> Seq<u8> {
    Seq::new(32, |i: int| 0u8)
}

/// What keccak-256 returns on the 64-byte concatenation of two nodes.
pub uninterp spec fn node_hash(left: Seq<u8>, right: Seq<u8>) -> Seq<u8>;

/// The view of a sequence of digests, one byte sequence per digest.
pub open spec fn views_of(s: Seq<Digest>) -> Seq<Seq<u8>> {
    s.map_values(|d: Digest| d@)
}

impl Digest {
    /// The all-zero digest.
    pub fn zero() -> (r: Digest)
        ensures
            r@ == zero_leaf(),
    {
        let bytes = [0u8; 32];
        proof {
            assert(bytes@ =~= zero_leaf());
        }
        Digest { bytes }
    }

    /// Wraps raw bytes as a digest.
    pub fn from_bytes(bytes: [u8; 32]) -> (r: Digest)
        ensures
            r@ == bytes@,
    {
        Digest { bytes }
    }

    /// Byte-for-byte equality.
    pub fn equals(&self, other: &Digest) -> (r: bool)
        ensures
            r <==> self@ == other@,
    {
        let mut i: usize = 0;
        while i < 32
            invariant
                i <= 32,
                forall|j: int| 0 <= j < i ==> self@[j] == other@[j],
            decreases 32 - i,
        {
            if self.bytes[i] != other.bytes[i] {
                return false;
            }
            i += 1;
        }
        proof {
            assert(self@ =~= other@);
        }
        true
    }
}

/// Relies on `ethers_core::utils::keccak256`: the returned digest is a
/// function of the input bytes alone, here the 64-byte `left || right`.
#[verifier::external_body]
pub fn hash_concat(left: &Digest, right: &Digest) -> (r: Digest)
    ensures
        r@ == node_hash(left@, right@),
{
    let mut buf = [0u8; 64];
    buf[..32].copy_from_slice(&left.bytes);
    buf[32..].copy_from_slice(&right.bytes);
    Digest { bytes: ethers_core::utils::keccak256(buf) }
}

} // verus!
