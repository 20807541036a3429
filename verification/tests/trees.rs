use tip_prover::{Digest, IncrementalMerkle, Prover, ProverError};

fn leaf(i: u8) -> Digest {
    Digest::from_bytes([i.wrapping_mul(37).wrapping_add(11); 32])
}

#[test]
fn tree_agreement_across_lengths() {
    let mut acc = IncrementalMerkle::new();
    let mut prover = Prover::new();
    assert_eq!(acc.root().bytes, prover.root().bytes);
    for i in 0..300u32 {
        let l = Digest::from_bytes([(i % 251) as u8; 32]);
        prover.ingest(&l).unwrap();
        acc.ingest(&l);
        assert_eq!(acc.root().bytes, prover.root().bytes);
        assert_eq!(acc.count(), prover.count() as u64);
    }
}

#[test]
fn proof_round_trip_recomputes_root() {
    let mut prover = Prover::new();
    let leaves: Vec<Digest> = (0..10u8).map(leaf).collect();
    for l in &leaves {
        prover.ingest(l).unwrap();
    }
    let root = prover.root();
    for (i, l) in leaves.iter().enumerate() {
        let proof = prover.prove(i).unwrap();
        assert_eq!(proof.index, i);
        assert_eq!(proof.path.len(), 32);
        assert_eq!(proof.root_with(l).bytes, root.bytes);
    }
}

#[test]
fn proof_round_trip_single_leaf() {
    let mut prover = Prover::new();
    prover.ingest(&leaf(9)).unwrap();
    let proof = prover.prove(0).unwrap();
    assert_eq!(proof.root_with(&leaf(9)).bytes, prover.root().bytes);
}

#[test]
fn proof_beyond_count_is_benign() {
    let mut prover = Prover::new();
    for i in 0..3u8 {
        prover.ingest(&leaf(i)).unwrap();
    }
    let before = prover.root();
    match prover.prove(3) {
        Err(ProverError::ZeroProof { index, count }) => {
            assert_eq!(index, 3);
            assert_eq!(count, 3);
        }
        other => panic!("expected the benign empty-proof condition, got {:?}", other),
    }
    match prover.prove(1000) {
        Err(ProverError::ZeroProof { index, count }) => {
            assert_eq!(index, 1000);
            assert_eq!(count, 3);
        }
        other => panic!("expected the benign empty-proof condition, got {:?}", other),
    }
    assert_eq!(prover.root().bytes, before.bytes);
    assert_eq!(prover.count(), 3);
}

#[test]
fn combiner_is_keccak_of_the_concatenation() {
    // With a single leaf, the sibling at height 0 is the zero leaf and the
    // sibling at height 1 is keccak-256 of sixty-four zero bytes.
    let mut prover = Prover::new();
    prover.ingest(&Digest::from_bytes([7u8; 32])).unwrap();
    let proof = prover.prove(0).unwrap();
    assert_eq!(proof.path[0].bytes, [0u8; 32]);
    let z1: [u8; 32] = [
        0xad, 0x32, 0x28, 0xb6, 0x76, 0xf7, 0xd3, 0xcd, 0x42, 0x84, 0xa5, 0x44, 0x3f, 0x17, 0xf1,
        0x96, 0x2b, 0x36, 0xe4, 0x91, 0xb3, 0x0a, 0x40, 0xb2, 0x40, 0x58, 0x49, 0xe5, 0x97, 0xba,
        0x5f, 0xb5,
    ];
    assert_eq!(proof.path[1].bytes, z1);
    // The combiner never hands a leaf back unchanged.
    assert_ne!(prover.root().bytes, [7u8; 32]);
}

#[test]
fn corrupted_path_fails_the_round_trip() {
    let mut prover = Prover::new();
    for i in 0..5u8 {
        prover.ingest(&leaf(i)).unwrap();
    }
    let mut proof = prover.prove(2).unwrap();
    proof.path[0].bytes[0] ^= 0x01;
    assert_ne!(proof.root_with(&leaf(2)).bytes, prover.root().bytes);
}

#[test]
fn roots_differ_for_different_leaves() {
    let mut a = IncrementalMerkle::new();
    let mut b = IncrementalMerkle::new();
    a.ingest(&leaf(1));
    b.ingest(&leaf(2));
    assert_ne!(a.root().bytes, b.root().bytes);
}

#[test]
fn digest_equals_is_byte_equality() {
    let a = Digest::from_bytes([5u8; 32]);
    let b = Digest::from_bytes([5u8; 32]);
    let mut c_bytes = [5u8; 32];
    c_bytes[31] = 6;
    let c = Digest::from_bytes(c_bytes);
    assert!(a.equals(&b));
    assert!(!a.equals(&c));
    assert_eq!(Digest::zero().bytes, [0u8; 32]);
}
