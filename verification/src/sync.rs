//! Tip synchronizer: keeps the accumulator and the inclusion-proof tree in
//! lockstep over the leaf store, recovers state by replaying stored leaves,
//! validates attested checkpoints, and persists per-message proofs.

use vstd::prelude::*;
use crate::digest::Digest;
use crate::accumulator::IncrementalMerkle;
use crate::prover::{Proof, Prover, ProverError, proof_ok};
use crate::store::LeafStore;
use crate::merkle::root_of;

verus! {

/// A message payload paired with the index of its leaf.
#[derive(Clone, Debug)]
pub struct CommittedMessage {
    pub leaf_index: u32,
    pub message: Vec<u8>,
}

/// An attested claim: the Merkle root of the first `index` leaves is `root`.
/// `index` counts leaves, so checkpoint `index` N attests leaves `0 .. N`.
#[derive(Clone, Copy, Debug)]
pub struct Checkpoint {
    pub root: Digest,
    pub index: u32,
}

/// A checkpoint plus its validator attestation; authenticity is assumed to
/// have been checked by the caller before it reaches this core.
#[derive(Clone, Debug)]
pub struct SignedCheckpoint {
    pub checkpoint: Checkpoint,
    pub signature: Vec<u8>,
}

/// One round of pending work: new messages, the batch producer's belief of
/// how far local state had advanced, and the checkpoint to sync toward.
pub struct MessageBatch {
    pub messages: Vec<CommittedMessage>,
    current_checkpoint_index: u32,
    signed_target_checkpoint: SignedCheckpoint,
}

impl MessageBatch {
    pub closed spec fn messages_spec(self) -> Seq<CommittedMessage> {
        self.messages@
    }

    pub closed spec fn current_index_spec(self) -> nat {
        self.current_checkpoint_index as nat
    }

    pub closed spec fn target_index_spec(self) -> nat {
        self.signed_target_checkpoint.checkpoint.index as nat
    }

    pub closed spec fn target_root_spec(self) -> Seq<u8> {
        self.signed_target_checkpoint.checkpoint.root@
    }

    pub fn new(
        messages: Vec<CommittedMessage>,
        current_checkpoint_index: u32,
        signed_target_checkpoint: SignedCheckpoint,
    ) -> (r: Self)
        ensures
            r.messages_spec() == messages@,
            r.current_index_spec() == current_checkpoint_index as nat,
            r.target_index_spec() == signed_target_checkpoint.checkpoint.index as nat,
            r.target_root_spec() == signed_target_checkpoint.checkpoint.root@,
    {
        Self { messages, current_checkpoint_index, signed_target_checkpoint }
    }
}

/// Typed failures of the synchronizer.
#[derive(Debug)]
pub enum TipProverError {
    /// Local trees are up to date but their root does not match the signed
    /// checkpoint: possibly a malicious validator or a deep reorganization.
    MismatchedRoots { prover_root: Digest, incremental_root: Digest, checkpoint_root: Digest },
    /// A leaf index the checkpoint claims exists is missing from the store.
    UnavailableLeaf { leaf_index: u32 },
    /// The inclusion-proof tree reported a structural error.
    ProverError(ProverError),
    /// A failure of chain communication, passed through unchanged; never
    /// generated inside this core.
    ChainCommunicationError(String),
    /// A failure of the leaf store, passed through unchanged; never
    /// generated by the in-memory store.
    DbError(String),
}

/// Tree agreement: over one and the same ingested leaf sequence the
/// accumulator and the inclusion-proof tree compute one and the same root.
/// Since each ingestion appends the same leaf to both, the two roots agree
/// after every single ingestion, whatever the sequence.
pub proof fn lemma_tree_agreement(acc: IncrementalMerkle, prover: Prover)
    requires
        acc.leaves() == prover.leaves_spec(),
    ensures
        acc.root_spec() == prover.root_spec(),
{
}

/// The slot `j` of `db` holds a proof exactly as the tree over `l` hands
/// it out.
pub open spec fn stored_proof_ok(db: LeafStore, l: Seq<Seq<u8>>, j: nat) -> bool {
    &&& j < db.proofs_spec().len()
    &&& match db.proofs_spec()[j as int] {
        Some(p) => proof_ok(p, l, j),
        None => false,
    }
}

/// Where replay beginning at leaf `k` stops: at the first count whose root
/// equals `target`, else at the end of the stored leaves.
pub open spec fn replay_from(l: Seq<Seq<u8>>, target: Seq<u8>, k: nat) -> nat
    decreases l.len() - k,
    when k <= l.len()
{
    if k >= l.len() {
        l.len()
    } else if root_of(l.take(k as int + 1)) == target {
        k + 1
    } else {
        replay_from(l, target, k + 1)
    }
}

/// The leaf count recovery reaches on a store holding `l` with attested
/// root `target`.
pub open spec fn replay_count(l: Seq<Seq<u8>>, target: Seq<u8>) -> nat {
    replay_from(l, target, 0)
}

/// The leaf count recovery reaches on store `db`: zero with no attested
/// root pointer, else where replay toward that root stops.
pub open spec fn recovered_count(db: LeafStore) -> nat {
    match db.latest_root_spec() {
        Some(t) => replay_count(db.leaf_views(), t),
        None => 0,
    }
}

/// The leaf count a batch drives the trees to: fast-forward to one past the
/// producer's checkpoint index, then on to the target index, never below
/// the count already reached.
pub open spec fn sync_target(n0: nat, c: nat, t: nat) -> nat {
    let after_ff = if n0 >= c + 1 {
        n0
    } else {
        c + 1
    };
    if after_ff >= t {
        after_ff
    } else {
        t
    }
}

/// Recovery idempotence: the recovered state is a function of the store
/// alone, so two recoveries from one and the same store end at the same
/// leaf count and the same root.
pub proof fn lemma_recovery_idempotent(a: TipProver, b: TipProver, db: LeafStore)
    requires
        a.count_spec() == recovered_count(db),
        b.count_spec() == recovered_count(db),
        a.prover_spec().leaves_spec() == db.leaf_views().take(a.count_spec() as int),
        b.prover_spec().leaves_spec() == db.leaf_views().take(b.count_spec() as int),
    ensures
        a.count_spec() == b.count_spec(),
        a.root_spec() == b.root_spec(),
{
}

/// Whether one of the first `k` messages of the batch addresses leaf `j`.
pub open spec fn batch_mentions(batch: MessageBatch, k: int, j: int) -> bool {
    exists|m: int| 0 <= m < k && (#[trigger] batch.messages_spec()[m]).leaf_index == j
}

/// Owner of the lockstep coupling of both trees against the leaf store.
pub struct TipProver {
    db: LeafStore,
    prover: Prover,
    incremental: IncrementalMerkle,
}

impl TipProver {
    /// Leaves both trees currently hold.
    pub open spec fn count_spec(self) -> nat {
        self.prover_spec().leaves_spec().len()
    }

    /// The root both trees currently stand for.
    pub open spec fn root_spec(self) -> Seq<u8> {
        self.prover_spec().root_spec()
    }

    pub closed spec fn db_spec(self) -> LeafStore {
        self.db
    }

    pub closed spec fn prover_spec(self) -> Prover {
        self.prover
    }

    pub closed spec fn incremental_spec(self) -> IncrementalMerkle {
        self.incremental
    }

    /// Both trees well formed, fed the same leaves, and those leaves are
    /// exactly the first `count` leaves of the store.
    pub open spec fn wf(self) -> bool {
        &&& self.db_spec().wf()
        &&& self.prover_spec().wf()
        &&& self.incremental_spec().wf()
        &&& self.incremental_spec().leaves() == self.prover_spec().leaves_spec()
        &&& self.count_spec() <= self.db_spec().leaf_views().len()
        &&& self.prover_spec().leaves_spec() == self.db_spec().leaf_views().take(
            self.count_spec() as int,
        )
    }

    /// Leaves ingested so far.
    pub fn count(&self) -> (r: usize)
        ensures
            r == self.count_spec(),
    {
        self.prover.count()
    }

    /// The current root of both trees.
    pub fn root(&self) -> (r: Digest)
        requires
            self.wf(),
        ensures
            r@ == self.root_spec(),
    {
        self.prover.root()
    }

    /// A view of the owned leaf store.
    pub fn store(&self) -> (r: &LeafStore)
        ensures
            *r == self.db_spec(),
    {
        &self.db
    }

    /// Appends the next leaf to the owned store, on behalf of the upstream
    /// message processing that produces leaves; the trees are untouched
    /// until a batch sync ingests it.
    pub fn append_leaf(&mut self, leaf: &Digest)
        requires
            old(self).wf(),
            old(self).db_spec().leaf_views().len() < u32::MAX as nat,
        ensures
            final(self).wf(),
            final(self).prover_spec() == old(self).prover_spec(),
            final(self).incremental_spec() == old(self).incremental_spec(),
            final(self).db_spec().leaf_views() == old(self).db_spec().leaf_views().push(leaf@),
            final(self).db_spec().proofs_spec() == old(self).db_spec().proofs_spec().push(
                None::<Proof>,
            ),
            final(self).db_spec().latest_root_spec() == old(self).db_spec().latest_root_spec(),
    {
        self.db.append_leaf(leaf);
        proof {
            assert(self.prover.leaves_spec() =~= self.db.leaf_views().take(
                self.count_spec() as int,
            ));
        }
    }

    /// Requests a proof for `leaf_index` from the tree and persists it. The
    /// benign no-proof-available condition — an index beyond the ingested
    /// range — is success as a no-op: proofs are opportunistic there.
    fn store_proof(&mut self, leaf_index: u32) -> (r: Result<(), TipProverError>)
        requires
            old(self).wf(),
        ensures
            final(self).wf(),
            r is Ok,
            final(self).prover_spec() == old(self).prover_spec(),
            final(self).incremental_spec() == old(self).incremental_spec(),
            final(self).db_spec().leaf_views() == old(self).db_spec().leaf_views(),
            final(self).db_spec().latest_root_spec() == old(self).db_spec().latest_root_spec(),
            final(self).db_spec().proofs_spec().len() == old(self).db_spec().proofs_spec().len(),
            (leaf_index as nat) < old(self).count_spec() ==> stored_proof_ok(
                final(self).db_spec(),
                old(self).prover_spec().leaves_spec(),
                leaf_index as nat,
            ),
            forall|j: int|
                0 <= j < old(self).db_spec().proofs_spec().len() && j != leaf_index as int
                    ==> final(self).db_spec().proofs_spec()[j] == old(
                    self,
                ).db_spec().proofs_spec()[j],
            (leaf_index as nat) >= old(self).count_spec() ==> final(self).db_spec() == old(
                self,
            ).db_spec(),
    {
        match self.prover.prove(leaf_index as usize) {
            Ok(proof) => {
                self.db.put_proof(leaf_index, proof);
                Ok(())
            },
            Err(ProverError::ZeroProof { .. }) => Ok(()),
            Err(e) => Err(TipProverError::ProverError(e)),
        }
    }

    /// Fetches leaf `leaf_index` from the store and ingests it into both
    /// trees; a missing leaf is the unavailable-leaf protocol violation.
    /// Ingestion is contiguous by contract: the trees must hold exactly
    /// `leaf_index` leaves, so an out-of-order index is rejected statically.
    fn ingest_leaf_index(&mut self, leaf_index: u32) -> (r: Result<(), TipProverError>)
        requires
            old(self).wf(),
            leaf_index as nat == old(self).count_spec(),
        ensures
            final(self).wf(),
            final(self).db_spec() == old(self).db_spec(),
            (leaf_index as nat) < old(self).db_spec().leaf_views().len() ==> ({
                &&& r is Ok
                &&& final(self).count_spec() == old(self).count_spec() + 1
                &&& final(self).prover_spec().leaves_spec() == old(
                    self,
                ).prover_spec().leaves_spec().push(
                    old(self).db_spec().leaf_views()[leaf_index as int],
                )
            }),
            (leaf_index as nat) >= old(self).db_spec().leaf_views().len() ==> ({
                &&& r matches Err(TipProverError::UnavailableLeaf { leaf_index: i }) && i
                    == leaf_index
                &&& *final(self) == *old(self)
            }),
    {
        match self.db.get_leaf(leaf_index) {
            Some(leaf) => {
                let res = self.prover.ingest(&leaf);
                match res {
                    Ok(()) => {},
                    Err(e) => {
                        return Err(TipProverError::ProverError(e));
                    },
                }
                self.incremental.ingest(&leaf);
                proof {
                    // Both trees extended by the same leaf: their roots
                    // still agree, the in-memory form of invariant I2.
                    lemma_tree_agreement(self.incremental, self.prover);
                    assert(self.prover.leaves_spec() =~= self.db.leaf_views().take(
                        self.count_spec() as int,
                    ));
                }
                Ok(())
            },
            None => Err(TipProverError::UnavailableLeaf { leaf_index }),
        }
    }

    /// Startup recovery: replays leaves from the store into fresh trees
    /// until the stored latest attested root is reached (or the leaves run
    /// out), then backfills a proof for every replayed leaf whose proof
    /// slot is empty. With no attested root pointer the synchronizer
    /// starts empty.
    pub fn from_disk(db: LeafStore) -> (r: TipProver)
        requires
            db.wf(),
        ensures
            r.wf(),
            r.db_spec().leaf_views() == db.leaf_views(),
            r.db_spec().latest_root_spec() == db.latest_root_spec(),
            r.db_spec().proofs_spec().len() == db.proofs_spec().len(),
            r.count_spec() == recovered_count(db),
            forall|j: int| 0 <= j < r.count_spec() ==> r.db_spec().proofs_spec()[j] is Some,
            forall|j: int|
                0 <= j < r.count_spec() && db.proofs_spec()[j] is None ==> stored_proof_ok(
                    r.db_spec(),
                    r.prover_spec().leaves_spec(),
                    j as nat,
                ),
            forall|j: int|
                0 <= j < db.proofs_spec().len() && db.proofs_spec()[j] is Some
                    ==> r.db_spec().proofs_spec()[j] == db.proofs_spec()[j],
            forall|j: int|
                r.count_spec() <= j < db.proofs_spec().len() ==> r.db_spec().proofs_spec()[j]
                    == db.proofs_spec()[j],
    {
        let ghost db0 = db;
        let ghost l = db.leaf_views();
        let mut prover = Prover::new();
        let mut incremental = IncrementalMerkle::new();
        match db.get_latest_attested_root() {
            None => {
                proof {
                    assert(prover.leaves_spec() =~= l.take(0));
                }
            },
            Some(target) => {
                let ghost t = target@;
                let mut i: u32 = 0;
                proof {
                    assert(prover.leaves_spec() =~= l.take(0));
                }
                loop
                    invariant_except_break
                        db.wf(),
                        db == db0,
                        l == db.leaf_views(),
                        t == target@,
                        prover.wf(),
                        incremental.wf(),
                        incremental.leaves() == prover.leaves_spec(),
                        i as nat <= l.len(),
                        prover.leaves_spec() == l.take(i as int),
                        replay_from(l, t, 0) == replay_from(l, t, i as nat),
                    ensures
                        db == db0,
                        prover.wf(),
                        incremental.wf(),
                        incremental.leaves() == prover.leaves_spec(),
                        replay_count(l, t) <= l.len(),
                        prover.leaves_spec() == l.take(replay_count(l, t) as int),
                    decreases l.len() - i as nat,
                {
                    match db.get_leaf(i) {
                        Some(leaf) => {
                            proof {
                                assert((i as nat) < l.len());
                            }
                            let res = prover.ingest(&leaf);
                            match res {
                                Ok(()) => {},
                                Err(_) => {
                                    proof {
                                        assert(false);
                                    }
                                },
                            }
                            incremental.ingest(&leaf);
                            proof {
                                assert(prover.leaves_spec() =~= l.take(i as int + 1));
                            }
                            let root = prover.root();
                            i = i + 1;
                            if root.equals(&target) {
                                proof {
                                    assert(replay_from(l, t, (i - 1) as nat) == i as nat);
                                }
                                break;
                            }
                            proof {
                                assert(replay_from(l, t, (i - 1) as nat) == replay_from(
                                    l,
                                    t,
                                    i as nat,
                                ));
                            }
                        },
                        None => {
                            proof {
                                assert(i as nat == l.len());
                            }
                            break;
                        },
                    }
                }
            },
        }
        let mut sync = TipProver { db, prover, incremental };
        let ghost lv = sync.prover_spec().leaves_spec();
        let ghost c = sync.count_spec();
        let count = sync.prover.count();
        let mut i: usize = 0;
        while i < count
            invariant
                sync.wf(),
                i <= count,
                count == c,
                c == sync.count_spec(),
                lv == sync.prover_spec().leaves_spec(),
                sync.db_spec().leaf_views() == db0.leaf_views(),
                sync.db_spec().latest_root_spec() == db0.latest_root_spec(),
                sync.db_spec().proofs_spec().len() == db0.proofs_spec().len(),
                c <= db0.proofs_spec().len(),
                c <= u32::MAX as nat,
                forall|j: int| 0 <= j < i ==> sync.db_spec().proofs_spec()[j] is Some,
                forall|j: int|
                    0 <= j < i && db0.proofs_spec()[j] is None ==> stored_proof_ok(
                        sync.db_spec(),
                        lv,
                        j as nat,
                    ),
                forall|j: int|
                    0 <= j < db0.proofs_spec().len() && db0.proofs_spec()[j] is Some
                        ==> sync.db_spec().proofs_spec()[j] == db0.proofs_spec()[j],
                forall|j: int|
                    i <= j < db0.proofs_spec().len() ==> sync.db_spec().proofs_spec()[j]
                        == db0.proofs_spec()[j],
            decreases count - i,
        {
            let idx = i as u32;
            let leaf_opt = sync.db.get_leaf(idx);
            let have_proof = sync.db.get_proof(idx).is_some();
            match (leaf_opt, have_proof) {
                (Some(_), false) => {
                    let res = sync.store_proof(idx);
                    match res {
                        Ok(()) => {},
                        Err(_) => {},
                    }
                },
                (None, _) => {
                    proof {
                        assert(false);
                    }
                },
                _ => {},
            }
            i += 1;
        }
        sync
    }

    /// One round of the checkpoint-sync protocol: fast-forward to one past
    /// the batch producer's checkpoint index, advance to the target
    /// checkpoint's leaf count, validate both roots against the attested
    /// root, and only then persist a proof for every message in the batch.
    /// A root mismatch is surfaced with all three roots and writes nothing;
    /// leaves ingested before the failed comparison are kept.
    pub fn update_from_batch(&mut self, batch: &MessageBatch) -> (r: Result<(), TipProverError>)
        requires
            old(self).wf(),
            batch.current_index_spec() < u32::MAX as nat,
        ensures
            final(self).wf(),
            final(self).db_spec().leaf_views() == old(self).db_spec().leaf_views(),
            final(self).db_spec().latest_root_spec() == old(self).db_spec().latest_root_spec(),
            final(self).db_spec().proofs_spec().len() == old(self).db_spec().proofs_spec().len(),
            ({
                let l = old(self).db_spec().leaf_views();
                let tc = sync_target(
                    old(self).count_spec(),
                    batch.current_index_spec(),
                    batch.target_index_spec(),
                );
                &&& (r is Ok <==> tc <= l.len() && root_of(l.take(tc as int))
                    == batch.target_root_spec())
                &&& (r is Ok ==> ({
                    &&& final(self).count_spec() == tc
                    &&& forall|m: int|
                        0 <= m < batch.messages_spec().len() && ((
                        #[trigger] batch.messages_spec()[m]).leaf_index as nat) < tc
                            ==> stored_proof_ok(
                            final(self).db_spec(),
                            final(self).prover_spec().leaves_spec(),
                            batch.messages_spec()[m].leaf_index as nat,
                        )
                    &&& forall|j: int|
                        0 <= j < old(self).db_spec().proofs_spec().len() && !batch_mentions(
                            *batch,
                            batch.messages_spec().len() as int,
                            j,
                        ) ==> final(self).db_spec().proofs_spec()[j] == old(
                            self,
                        ).db_spec().proofs_spec()[j]
                }))
                &&& (tc <= l.len() && root_of(l.take(tc as int)) != batch.target_root_spec()
                    ==> ({
                    &&& r matches Err(TipProverError::MismatchedRoots {
                        prover_root,
                        incremental_root,
                        checkpoint_root,
                    }) && prover_root@ == root_of(l.take(tc as int)) && incremental_root@
                        == root_of(l.take(tc as int)) && checkpoint_root@
                        == batch.target_root_spec()
                    &&& final(self).count_spec() == tc
                    &&& final(self).db_spec() == old(self).db_spec()
                }))
                &&& (tc > l.len() ==> ({
                    &&& r matches Err(TipProverError::UnavailableLeaf { leaf_index })
                        && leaf_index as nat == l.len()
                    &&& final(self).count_spec() == l.len()
                    &&& final(self).db_spec() == old(self).db_spec()
                }))
            }),
    {
        let ghost l = old(self).db_spec().leaf_views();
        let ghost n0 = old(self).count_spec();
        let ghost cc = batch.current_index_spec();
        let ghost ti = batch.target_index_spec();
        let ghost tc = sync_target(n0, cc, ti);
        let ghost after_ff: nat = if n0 >= cc + 1 {
            n0
        } else {
            cc + 1
        };
        let c = batch.current_checkpoint_index;
        let t = batch.signed_target_checkpoint.checkpoint.index;
        proof {
            assert(old(self).count_spec() <= u32::MAX as nat);
        }
        let mut i: u32 = self.prover.count() as u32;
        while i <= c
            invariant
                self.wf(),
                self.db_spec() == old(self).db_spec(),
                l == self.db_spec().leaf_views(),
                c as nat == cc,
                cc < u32::MAX as nat,
                n0 == old(self).count_spec(),
                cc == batch.current_index_spec(),
                ti == batch.target_index_spec(),
                tc == sync_target(n0, cc, ti),
                n0 <= i as nat <= after_ff,
                after_ff == (if n0 >= cc + 1 {
                    n0
                } else {
                    cc + 1
                }),
                i as nat == self.count_spec(),
            decreases c + 1 - i,
        {
            let res = self.ingest_leaf_index(i);
            match res {
                Ok(()) => {},
                Err(e) => {
                    proof {
                        assert(i as nat == l.len());
                        assert(after_ff >= cc + 1);
                        assert(tc >= after_ff);
                    }
                    return Err(e);
                },
            }
            i += 1;
        }
        proof {
            assert(self.count_spec() == after_ff);
        }
        let mut i2: u32 = self.prover.count() as u32;
        while i2 < t
            invariant
                self.wf(),
                self.db_spec() == old(self).db_spec(),
                l == self.db_spec().leaf_views(),
                t as nat == ti,
                n0 == old(self).count_spec(),
                cc == batch.current_index_spec(),
                ti == batch.target_index_spec(),
                after_ff <= i2 as nat <= tc,
                tc == sync_target(n0, cc, ti),
                after_ff == (if n0 >= cc + 1 {
                    n0
                } else {
                    cc + 1
                }),
                i2 as nat == self.count_spec(),
            decreases t - i2,
        {
            let res = self.ingest_leaf_index(i2);
            match res {
                Ok(()) => {},
                Err(e) => {
                    proof {
                        assert(i2 as nat == l.len());
                        assert(tc >= ti > i2 as nat);
                    }
                    return Err(e);
                },
            }
            i2 += 1;
        }
        proof {
            assert(self.count_spec() == tc);
        }
        let prover_root = self.prover.root();
        let incremental_root = self.incremental.root();
        let checkpoint_root = batch.signed_target_checkpoint.checkpoint.root;
        if !prover_root.equals(&incremental_root) || !prover_root.equals(&checkpoint_root) {
            return Err(
                TipProverError::MismatchedRoots { prover_root, incremental_root, checkpoint_root },
            );
        }
        let ghost lv = self.prover_spec().leaves_spec();
        let ghost db_mid = self.db_spec();
        let mut k: usize = 0;
        while k < batch.messages.len()
            invariant
                self.wf(),
                k <= batch.messages_spec().len(),
                db_mid == old(self).db_spec(),
                lv == self.prover_spec().leaves_spec(),
                self.count_spec() == tc,
                tc == sync_target(
                    old(self).count_spec(),
                    batch.current_index_spec(),
                    batch.target_index_spec(),
                ),
                root_of(lv) == batch.target_root_spec(),
                self.db_spec().leaf_views() == db_mid.leaf_views(),
                self.db_spec().latest_root_spec() == db_mid.latest_root_spec(),
                self.db_spec().proofs_spec().len() == db_mid.proofs_spec().len(),
                forall|m: int|
                    0 <= m < k && ((#[trigger] batch.messages_spec()[m]).leaf_index as nat) < tc
                        ==> stored_proof_ok(
                        self.db_spec(),
                        lv,
                        batch.messages_spec()[m].leaf_index as nat,
                    ),
                forall|j: int|
                    0 <= j < db_mid.proofs_spec().len() && !batch_mentions(*batch, k as int, j)
                        ==> self.db_spec().proofs_spec()[j] == db_mid.proofs_spec()[j],
            decreases batch.messages_spec().len() - k,
        {
            let idx = batch.messages[k].leaf_index;
            let res = self.store_proof(idx);
            match res {
                Ok(()) => {},
                Err(_) => {},
            }
            proof {
                assert(batch_mentions(*batch, k as int + 1, idx as int));
                assert forall|j: int|
                    0 <= j < db_mid.proofs_spec().len() && !batch_mentions(*batch, k as int + 1, j)
                        implies self.db_spec().proofs_spec()[j] == db_mid.proofs_spec()[j] by {
                    assert(!batch_mentions(*batch, k as int, j));
                }
            }
            k += 1;
        }
        Ok(())
    }
}

} // verus!
