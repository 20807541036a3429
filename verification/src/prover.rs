//! Inclusion-proof Merkle tree: retains every ingested leaf and can produce
//! the sibling-hash path for any of them.

use vstd::prelude::*;
use crate::digest::{Digest, hash_concat, views_of};
use crate::merkle::{
    TREE_DEPTH, node_at, root_of, zero_node, sibling_start, proof_path, climb,
    lemma_node_at_empty, lemma_div_pow2_step, lemma_sibling_start_bound,
    lemma_proof_round_trip,
};
use vstd::arithmetic::power2::{pow2, lemma_pow2_pos, lemma_pow2_unfold, lemma2_to64};
use vstd::arithmetic::div_mod::lemma_fundamental_div_mod;

verus! {

/// Structural failures of the inclusion-proof tree.
#[derive(Clone, Copy, Debug, PartialEq, Eq, Structural)]
pub enum ProverError {
    /// The tree already holds the maximum representable number of leaves.
    TreeFull,
    /// The benign no-proof-available condition: the index lies beyond the
    /// currently ingested range.
    ZeroProof { index: usize, count: usize },
}

/// An inclusion proof: the index it proves and one sibling hash per height.
#[derive(Clone, Debug)]
pub struct Proof {
    pub index: usize,
    pub path: Vec<Digest>,
}

impl Proof {
    pub open spec fn wf(self) -> bool {
        self.path@.len() == TREE_DEPTH
    }

    /// Recomputes the root this proof commits to, from the proved leaf value.
    pub fn root_with(&self, leaf: &Digest) -> (r: Digest)
        requires
            self.wf(),
        ensures
            r@ == climb(leaf@, views_of(self.path@), self.index as nat, TREE_DEPTH as nat),
    {
        let mut node: Digest = *leaf;
        let mut idx: u64 = self.index as u64;
        let mut d: usize = 0;
        proof {
            lemma2_to64();
        }
        while d < 32
            invariant
                d <= 32,
                self.wf(),
                idx == self.index as nat / pow2(d as nat),
                node@ == climb(leaf@, views_of(self.path@), self.index as nat, d as nat),
            decreases 32 - d,
        {
            proof {
                lemma_div_pow2_step(self.index as nat, d as nat);
            }
            if idx % 2 == 1 {
                node = hash_concat(&self.path[d], &node);
            } else {
                node = hash_concat(&node, &self.path[d]);
            }
            idx = idx / 2;
            d += 1;
        }
        node
    }
}

/// A proof exactly as the tree hands it out for leaf `j` of leaf sequence
/// `l`: the right index and the sibling path of every height.
pub open spec fn proof_ok(p: Proof, l: Seq<Seq<u8>>, j: nat) -> bool {
    &&& p.wf()
    &&& p.index as nat == j
    &&& views_of(p.path@) == proof_path(l, j)
}

/// Proof validity round trip: a proof the tree hands out for an ingested
/// leaf, climbed with that leaf's value, recomputes exactly the tree root.
pub proof fn lemma_proof_validity(p: Proof, l: Seq<Seq<u8>>, j: nat)
    requires
        proof_ok(p, l, j),
        j < l.len(),
        l.len() <= u32::MAX as nat,
    ensures
        climb(l[j as int], views_of(p.path@), j, TREE_DEPTH as nat) == root_of(l),
{
    lemma2_to64();
    lemma_proof_round_trip(l, j);
}

/// Merkle tree retaining all leaves, able to answer inclusion proofs.
pub struct Prover {
    leaves: Vec<Digest>,
}

impl Prover {
    /// The sequence of leaf hashes ingested so far.
    pub closed spec fn leaves_spec(self) -> Seq<Seq<u8>> {
        views_of(self.leaves@)
    }

    /// The root the structure stands for.
    pub open spec fn root_spec(self) -> Seq<u8> {
        root_of(self.leaves_spec())
    }

    pub open spec fn wf(self) -> bool {
        self.leaves_spec().len() <= u32::MAX as nat
    }

    /// An empty tree.
    pub fn new() -> (r: Prover)
        ensures
            r.wf(),
            r.leaves_spec() == Seq::<Seq<u8>>::empty(),
    {
        let r = Prover { leaves: Vec::new() };
        proof {
            assert(r.leaves_spec() =~= Seq::<Seq<u8>>::empty());
        }
        r
    }

    /// Leaves ingested so far.
    pub fn count(&self) -> (r: usize)
        ensures
            r == self.leaves_spec().len(),
    {
        self.leaves.len()
    }

    /// Appends the next leaf; fails once the maximum representable leaf
    /// count is reached.
    pub fn ingest(&mut self, element: &Digest) -> (r: Result<(), ProverError>)
        requires
            old(self).wf(),
        ensures
            final(self).wf(),
            old(self).leaves_spec().len() < u32::MAX as nat ==> r is Ok
                && final(self).leaves_spec() == old(self).leaves_spec().push(element@),
            old(self).leaves_spec().len() == u32::MAX as nat ==> r == Err::<(), ProverError>(
                ProverError::TreeFull,
            ) && *final(self) == *old(self),
    {
        if self.leaves.len() >= u32::MAX as usize {
            return Err(ProverError::TreeFull);
        }
        self.leaves.push(*element);
        proof {
            assert(self.leaves_spec() =~= old(self).leaves_spec().push(element@));
        }
        Ok(())
    }

    /// The root of the empty subtree of height `depth`.
    fn zero_digest(depth: usize) -> (r: Digest)
        requires
            depth <= TREE_DEPTH,
        ensures
            r@ == zero_node(depth as nat),
    {
        let mut d = Digest::zero();
        let mut i: usize = 0;
        while i < depth
            invariant
                i <= depth,
                d@ == zero_node(i as nat),
            decreases depth - i,
        {
            d = hash_concat(&d, &d);
            i += 1;
        }
        d
    }

    /// Two to the given power, for heights within the tree.
    fn pow2_u64(e: usize) -> (r: u64)
        requires
            e <= TREE_DEPTH,
        ensures
            r as nat == pow2(e as nat),
    {
        proof {
            lemma2_to64();
        }
        let mut r: u64 = 1;
        let mut i: usize = 0;
        while i < e
            invariant
                i <= e <= TREE_DEPTH,
                r as nat == pow2(i as nat),
            decreases e - i,
        {
            proof {
                lemma_pow2_unfold(i as nat + 1);
                lemma2_to64();
                vstd::arithmetic::power2::lemma_pow2_strictly_increases(i as nat, TREE_DEPTH as nat);
            }
            r = r * 2;
            i += 1;
        }
        r
    }

    /// The hash of the height-`depth` subtree whose leaf slots start at
    /// `start`, skipping in one step over slots past the ingested leaves.
    fn compute_node(&self, start: u64, depth: usize) -> (r: Digest)
        requires
            self.wf(),
            depth <= TREE_DEPTH,
            start + pow2(depth as nat) <= pow2(TREE_DEPTH as nat),
        ensures
            r@ == node_at(self.leaves_spec(), start as nat, depth as nat),
        decreases depth,
    {
        proof {
            lemma2_to64();
            lemma_pow2_pos(depth as nat);
        }
        let len = self.leaves.len();
        if start >= len as u64 {
            proof {
                lemma_node_at_empty(self.leaves_spec(), start as nat, depth as nat);
            }
            return Self::zero_digest(depth);
        }
        if depth == 0 {
            let i = start as usize;
            return self.leaves[i];
        }
        proof {
            lemma_pow2_unfold(depth as nat);
        }
        let half = Self::pow2_u64(depth - 1);
        let left = self.compute_node(start, depth - 1);
        let right = self.compute_node(start + half, depth - 1);
        hash_concat(&left, &right)
    }

    /// The current root, computed over all ingested leaves.
    pub fn root(&self) -> (r: Digest)
        requires
            self.wf(),
        ensures
            r@ == self.root_spec(),
    {
        proof {
            lemma2_to64();
        }
        self.compute_node(0, TREE_DEPTH)
    }

    /// The sibling-hash path for `index`. An index at or beyond the
    /// ingested range is the benign empty-proof condition, not a fault, and
    /// leaves the tree untouched.
    pub fn prove(&self, index: usize) -> (r: Result<Proof, ProverError>)
        requires
            self.wf(),
        ensures
            index < self.leaves_spec().len() ==> (r matches Ok(p)
                && p.wf()
                && p.index == index
                && views_of(p.path@) == proof_path(self.leaves_spec(), index as nat)),
            index >= self.leaves_spec().len() ==> r == Err::<Proof, ProverError>(
                ProverError::ZeroProof { index, count: self.leaves_spec().len() as usize },
            ),
    {
        let count = self.leaves.len();
        if index >= count {
            return Err(ProverError::ZeroProof { index, count });
        }
        proof {
            lemma2_to64();
        }
        let idx: u64 = index as u64;
        let mut path: Vec<Digest> = Vec::new();
        let mut d: usize = 0;
        while d < 32
            invariant
                d <= 32,
                self.wf(),
                idx == index as u64,
                index < self.leaves_spec().len(),
                self.leaves_spec().len() <= u32::MAX as nat,
                path@.len() == d,
                forall|k: int| 0 <= k < d ==> (#[trigger] path@[k])@ == node_at(
                    self.leaves_spec(),
                    sibling_start(index as nat, k as nat),
                    k as nat,
                ),
            decreases 32 - d,
        {
            proof {
                lemma2_to64();
                lemma_pow2_pos(d as nat);
                lemma_sibling_start_bound(index as nat, d as nat);
                lemma_fundamental_div_mod(index as int, pow2(d as nat) as int);
            }
            let p = Self::pow2_u64(d);
            let q = idx / p;
            let s: u64 = if q % 2 == 1 {
                (q - 1) * p
            } else {
                (q + 1) * p
            };
            let sib = self.compute_node(s, d);
            path.push(sib);
            d += 1;
        }
        proof {
            assert(views_of(path@) =~= proof_path(self.leaves_spec(), index as nat));
        }
        Ok(Proof { index, path })
    }
}

} // verus!
