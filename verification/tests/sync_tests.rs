use tip_prover::{
    Checkpoint, CommittedMessage, Digest, IncrementalMerkle, LeafStore, MessageBatch,
    SignedCheckpoint, TipProver, TipProverError,
};

fn leaf(i: u8) -> Digest {
    Digest::from_bytes([i.wrapping_mul(41).wrapping_add(3); 32])
}

fn root_of_first(n: u8) -> Digest {
    let mut acc = IncrementalMerkle::new();
    for i in 0..n {
        acc.ingest(&leaf(i));
    }
    acc.root()
}

fn store_with(n: u8) -> LeafStore {
    let mut db = LeafStore::new();
    for i in 0..n {
        db.append_leaf(&leaf(i));
    }
    db
}

fn message(i: u32) -> CommittedMessage {
    CommittedMessage { leaf_index: i, message: vec![i as u8] }
}

fn signed(root: Digest, index: u32) -> SignedCheckpoint {
    SignedCheckpoint { checkpoint: Checkpoint { root, index }, signature: Vec::new() }
}

#[test]
fn recovery_from_empty_store_starts_empty() {
    let sync = TipProver::from_disk(LeafStore::new());
    assert_eq!(sync.count(), 0);
}

#[test]
fn recovery_without_root_pointer_starts_empty() {
    let sync = TipProver::from_disk(store_with(4));
    assert_eq!(sync.count(), 0);
}

#[test]
fn recovery_idempotence() {
    let mut db = store_with(7);
    db.set_latest_attested_root(&root_of_first(7));
    let first = TipProver::from_disk(db.clone());
    let second = TipProver::from_disk(db);
    assert_eq!(first.count(), 7);
    assert_eq!(second.count(), 7);
    assert_eq!(first.root().bytes, second.root().bytes);
    assert_eq!(first.root().bytes, root_of_first(7).bytes);
}

#[test]
fn recovery_stops_early_when_store_is_short() {
    // The attested root covers more leaves than the store holds: replay
    // stops at the end of the stored leaves, a recoverable condition.
    let mut db = store_with(3);
    db.set_latest_attested_root(&root_of_first(5));
    let sync = TipProver::from_disk(db);
    assert_eq!(sync.count(), 3);
}

#[test]
fn batch_sync_stores_proofs_for_all_messages() {
    let db = store_with(6);
    let mut sync = TipProver::from_disk(db);
    assert_eq!(sync.count(), 0);
    let batch = MessageBatch::new(
        vec![message(0), message(3), message(5)],
        2,
        signed(root_of_first(6), 6),
    );
    sync.update_from_batch(&batch).unwrap();
    assert_eq!(sync.count(), 6);
    assert_eq!(sync.root().bytes, root_of_first(6).bytes);
    for i in [0u32, 3, 5] {
        let proof = sync.store().get_proof(i).expect("proof must be stored");
        assert_eq!(proof.index as u32, i);
        assert_eq!(proof.root_with(&leaf(i as u8)).bytes, sync.root().bytes);
    }
    assert!(sync.store().get_proof(1).is_none());
}

#[test]
fn batch_sync_mismatch_detection() {
    let db = store_with(6);
    let mut sync = TipProver::from_disk(db);
    let mut corrupted = root_of_first(6);
    corrupted.bytes[0] ^= 0xff;
    let batch = MessageBatch::new(vec![message(0), message(3)], 2, signed(corrupted, 6));
    match sync.update_from_batch(&batch) {
        Err(TipProverError::MismatchedRoots { prover_root, incremental_root, checkpoint_root }) => {
            assert_eq!(prover_root.bytes, root_of_first(6).bytes);
            assert_eq!(incremental_root.bytes, root_of_first(6).bytes);
            assert_eq!(checkpoint_root.bytes, corrupted.bytes);
        }
        other => panic!("expected a root mismatch, got {:?}", other),
    }
    // Ingestion is kept, but no proof was written for the batch's messages.
    assert_eq!(sync.count(), 6);
    assert!(sync.store().get_proof(0).is_none());
    assert!(sync.store().get_proof(3).is_none());
}

#[test]
fn batch_sync_unavailable_leaf() {
    let db = store_with(3);
    let mut sync = TipProver::from_disk(db);
    let batch = MessageBatch::new(vec![message(4)], 2, signed(root_of_first(5), 5));
    match sync.update_from_batch(&batch) {
        Err(TipProverError::UnavailableLeaf { leaf_index }) => assert_eq!(leaf_index, 3),
        other => panic!("expected an unavailable leaf, got {:?}", other),
    }
    assert_eq!(sync.count(), 3);
    assert!(sync.store().get_proof(0).is_none());
}

#[test]
fn batch_on_empty_store_reports_the_first_missing_leaf() {
    let mut sync = TipProver::from_disk(LeafStore::new());
    let batch = MessageBatch::new(Vec::new(), 0, signed(root_of_first(1), 1));
    match sync.update_from_batch(&batch) {
        Err(TipProverError::UnavailableLeaf { leaf_index }) => assert_eq!(leaf_index, 0),
        other => panic!("expected an unavailable leaf, got {:?}", other),
    }
    assert_eq!(sync.count(), 0);
}

#[test]
fn batch_sync_is_idempotent_for_repeated_batches() {
    let db = store_with(4);
    let mut sync = TipProver::from_disk(db);
    let batch = MessageBatch::new(vec![message(1)], 1, signed(root_of_first(4), 4));
    sync.update_from_batch(&batch).unwrap();
    assert_eq!(sync.count(), 4);
    // Re-running the same batch skips already-ingested indices and succeeds.
    sync.update_from_batch(&batch).unwrap();
    assert_eq!(sync.count(), 4);
    assert_eq!(sync.root().bytes, root_of_first(4).bytes);
}

#[test]
fn recovery_then_batch_scenario() {
    // Store holds leaves for indices 0 through 4 and the attested root of
    // those five leaves.
    let mut db = store_with(5);
    db.set_latest_attested_root(&root_of_first(5));
    let mut sync = TipProver::from_disk(db);
    assert_eq!(sync.count(), 5);
    assert_eq!(sync.root().bytes, root_of_first(5).bytes);
    for i in 0..5u32 {
        assert!(sync.store().get_proof(i).is_some());
    }
    // A batch with one new message at index 5 and a target checkpoint of
    // index 6 carrying the correct root after ingesting leaf 5.
    sync.append_leaf(&leaf(5));
    let batch = MessageBatch::new(vec![message(5)], 5, signed(root_of_first(6), 6));
    sync.update_from_batch(&batch).unwrap();
    assert_eq!(sync.count(), 6);
    let proof = sync.store().get_proof(5).expect("proof for the new leaf");
    assert_eq!(proof.root_with(&leaf(5)).bytes, root_of_first(6).bytes);
}

#[test]
fn recovery_backfills_only_missing_proofs() {
    let mut db = store_with(3);
    db.set_latest_attested_root(&root_of_first(3));
    let first = TipProver::from_disk(db);
    for i in 0..3u32 {
        assert!(first.store().get_proof(i).is_some());
    }
}

#[test]
fn message_batch_new_keeps_its_parts() {
    let batch = MessageBatch::new(vec![message(2)], 7, signed(root_of_first(2), 9));
    assert_eq!(batch.messages.len(), 1);
    assert_eq!(batch.messages[0].leaf_index, 2);
}
