//! In-memory leaf store: the durable arena of leaf hashes, the stored
//! inclusion proofs, and the latest attested root pointer. Leaves are dense,
//! addressed by position, and immutable once appended.

use vstd::prelude::*;
use crate::digest::{Digest, views_of};
use crate::prover::Proof;

verus! {

/// Leaf storage plus the per-leaf proof slots and the latest attested root.
#[derive(Clone, Debug)]
pub struct LeafStore {
    leaves: Vec<Digest>,
    proofs: Vec<Option<Proof>>,
    latest_root: Option<Digest>,
}

impl LeafStore {
    /// The stored leaf hashes, in index order.
    pub closed spec fn leaf_views(self) -> Seq<Seq<u8>> {
        views_of(self.leaves@)
    }

    /// The stored proof slots, one per leaf.
    pub closed spec fn proofs_spec(self) -> Seq<Option<Proof>> {
        self.proofs@
    }

    /// The latest attested root pointer, if one was ever stored.
    pub closed spec fn latest_root_spec(self) -> Option<Seq<u8>> {
        match self.latest_root {
            Some(d) => Some(d@),
            None => None,
        }
    }

    pub open spec fn wf(self) -> bool {
        &&& self.proofs_spec().len() == self.leaf_views().len()
        &&& self.leaf_views().len() <= u32::MAX as nat
    }

    /// An empty store.
    pub fn new() -> (r: LeafStore)
        ensures
            r.wf(),
            r.leaf_views() == Seq::<Seq<u8>>::empty(),
            r.proofs_spec() == Seq::<Option<Proof>>::empty(),
            r.latest_root_spec() is None,
    {
        let r = LeafStore { leaves: Vec::new(), proofs: Vec::new(), latest_root: None };
        proof {
            assert(r.leaf_views() =~= Seq::<Seq<u8>>::empty());
        }
        r
    }

    /// Appends the next leaf, with an empty proof slot.
    pub fn append_leaf(&mut self, leaf: &Digest)
        requires
            old(self).wf(),
            old(self).leaf_views().len() < u32::MAX as nat,
        ensures
            final(self).wf(),
            final(self).leaf_views() == old(self).leaf_views().push(leaf@),
            final(self).proofs_spec() == old(self).proofs_spec().push(None::<Proof>),
            final(self).latest_root_spec() == old(self).latest_root_spec(),
    {
        self.leaves.push(*leaf);
        self.proofs.push(None);
        proof {
            assert(self.leaf_views() =~= old(self).leaf_views().push(leaf@));
        }
    }

    /// Stores the latest attested root pointer.
    pub fn set_latest_attested_root(&mut self, root: &Digest)
        requires
            old(self).wf(),
        ensures
            final(self).wf(),
            final(self).leaf_views() == old(self).leaf_views(),
            final(self).proofs_spec() == old(self).proofs_spec(),
            final(self).latest_root_spec() == Some(root@),
    {
        self.latest_root = Some(*root);
    }

    /// Reads the latest attested root pointer.
    pub fn get_latest_attested_root(&self) -> (r: Option<Digest>)
        ensures
            match r {
                Some(d) => self.latest_root_spec() == Some(d@),
                None => self.latest_root_spec() is None,
            },
    {
        match &self.latest_root {
            Some(d) => Some(*d),
            None => None,
        }
    }

    /// Reads the leaf at `index`, absent if no leaf was stored that far.
    pub fn get_leaf(&self, index: u32) -> (r: Option<Digest>)
        ensures
            (index as nat) < self.leaf_views().len() ==> (r matches Some(d)
                && d@ == self.leaf_views()[index as int]),
            (index as nat) >= self.leaf_views().len() ==> r is None,
    {
        if (index as usize) < self.leaves.len() {
            Some(self.leaves[index as usize])
        } else {
            None
        }
    }

    /// Stores a proof for leaf `index`, replacing what the slot held.
    pub fn put_proof(&mut self, index: u32, proof: Proof)
        requires
            old(self).wf(),
            (index as nat) < old(self).leaf_views().len(),
        ensures
            final(self).wf(),
            final(self).leaf_views() == old(self).leaf_views(),
            final(self).latest_root_spec() == old(self).latest_root_spec(),
            final(self).proofs_spec() == old(self).proofs_spec().update(
                index as int,
                Some(proof),
            ),
    {
        self.proofs[index as usize] = Some(proof);
    }

    /// Reads the proof stored for leaf `index`, if any.
    pub fn get_proof(&self, index: u32) -> (r: Option<&Proof>)
        ensures
            match r {
                Some(p) => (index as nat) < self.proofs_spec().len()
                    && self.proofs_spec()[index as int] == Some(*p),
                None => (index as nat) >= self.proofs_spec().len()
                    || self.proofs_spec()[index as int] is None,
            },
    {
        if (index as usize) < self.proofs.len() {
            self.proofs[index as usize].as_ref()
        } else {
            None
        }
    }
}

} // verus!
