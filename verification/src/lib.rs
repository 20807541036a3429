//! Proof-maintenance core of a cross-chain message relayer.
//!
//! Two independently implemented Merkle structures — an append-only
//! accumulator keeping only a frontier, and a fuller inclusion-proof tree —
//! are kept in lockstep over a dense, append-only leaf sequence read from a
//! leaf store. A synchronizer recovers its state by replaying stored leaves,
//! advances both trees toward externally attested checkpoints, validates the
//! roots against each checkpoint, and persists an inclusion proof per message.

pub mod digest;
pub mod merkle;
pub mod accumulator;
pub mod prover;
pub mod store;
pub mod sync;

pub use digest::Digest;
pub use accumulator::IncrementalMerkle;
pub use prover::{Proof, Prover, ProverError};
pub use store::LeafStore;
pub use sync::{Checkpoint, CommittedMessage, MessageBatch, SignedCheckpoint, TipProver, TipProverError};
