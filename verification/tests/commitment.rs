use koru_lambda_core::subsystems::commitment::{
    BatchCommitment, CommitmentAgent, CommitmentError, COMMITMENT_CACHE_CAP, MAX_LEADER_ID_LEN,
};
use koru_lambda_core::subsystems::validator::{TransactionAction, TransactionBatch};
use koru_lambda_core::{Canonicalizable, Distinction, DistinctionEngine, LocalCausalAgent};

fn fresh() -> (DistinctionEngine, CommitmentAgent) {
    let engine = DistinctionEngine::new();
    let agent = CommitmentAgent::new(&engine);
    (engine, agent)
}

fn sample_batch(engine: &DistinctionEngine) -> TransactionBatch {
    TransactionBatch {
        previous_root: engine.d0(),
        transactions: vec![
            TransactionAction::new(0, b"hello".to_vec()).expect("valid tx (invariant)"),
            TransactionAction::new(1, b"world".to_vec()).expect("valid tx (invariant)"),
        ],
    }
}

fn sample_commitment(engine: &mut DistinctionEngine) -> BatchCommitment {
    let batch = sample_batch(engine);
    BatchCommitment::compute(&batch, 0, 42, "leader-alice".into(), engine)
        .expect("valid commitment (invariant)")
}

#[test]
fn compute_and_verify_roundtrip() {
    let mut engine = DistinctionEngine::new();
    let batch = sample_batch(&engine);
    let commit = BatchCommitment::compute(&batch, 0, 42, "leader-alice".into(), &mut engine)
        .expect("compute succeeds");
    assert!(commit.verify_batch(&batch, &mut engine));
}

#[test]
fn compute_is_deterministic() {
    let mut engine1 = DistinctionEngine::new();
    let mut engine2 = DistinctionEngine::new();
    let b1 = sample_batch(&engine1);
    let b2 = sample_batch(&engine2);
    let c1 = BatchCommitment::compute(&b1, 0, 42, "leader".into(), &mut engine1)
        .expect("valid compute (invariant)");
    let c2 = BatchCommitment::compute(&b2, 0, 42, "leader".into(), &mut engine2)
        .expect("valid compute (invariant)");
    assert_eq!(c1.commitment_hash, c2.commitment_hash);
}

#[test]
fn n6_tampered_leader_id_fails_verify() {
    let mut engine = DistinctionEngine::new();
    let batch = sample_batch(&engine);
    let mut commit = BatchCommitment::compute(&batch, 0, 42, "leader-alice".into(), &mut engine)
        .expect("compute succeeds");
    commit.leader_id = "leader-eve".into();
    assert!(!commit.verify_batch(&batch, &mut engine), "tampered leader_id must NOT verify");
}

#[test]
fn n6_different_leader_ids_give_different_hashes() {
    let mut engine = DistinctionEngine::new();
    let batch = sample_batch(&engine);
    let c1 = BatchCommitment::compute(&batch, 0, 42, "alice".into(), &mut engine)
        .expect("valid compute (invariant)");
    let c2 = BatchCommitment::compute(&batch, 0, 42, "bob".into(), &mut engine)
        .expect("valid compute (invariant)");
    assert_ne!(c1.commitment_hash, c2.commitment_hash);
}

#[test]
fn n6_length_prefix_prevents_concat_ambiguity() {
    let mut engine = DistinctionEngine::new();
    let batch = sample_batch(&engine);
    let c1 = BatchCommitment::compute(&batch, 0, 42, "abcdef".into(), &mut engine)
        .expect("valid compute (invariant)");
    let c2 = BatchCommitment::compute(&batch, 0, 42, "abc".into(), &mut engine)
        .expect("valid compute (invariant)");
    assert_ne!(c1.commitment_hash, c2.commitment_hash);
}

#[test]
fn f7_tampered_nonce_fails_verify() {
    let mut engine = DistinctionEngine::new();
    let batch = sample_batch(&engine);
    let mut commit = BatchCommitment::compute(&batch, 0, 42, "l".into(), &mut engine)
        .expect("valid compute (invariant)");
    commit.nonce = 999;
    assert!(!commit.verify_batch(&batch, &mut engine));
}

#[test]
fn f7_tampered_epoch_fails_verify() {
    let mut engine = DistinctionEngine::new();
    let batch = sample_batch(&engine);
    let mut commit = BatchCommitment::compute(&batch, 0, 42, "l".into(), &mut engine)
        .expect("valid compute (invariant)");
    commit.epoch = 999;
    assert!(!commit.verify_batch(&batch, &mut engine));
}

#[test]
fn f7_tampered_batch_content_fails_verify() {
    let mut engine = DistinctionEngine::new();
    let batch = sample_batch(&engine);
    let commit = BatchCommitment::compute(&batch, 0, 42, "l".into(), &mut engine)
        .expect("valid compute (invariant)");
    let mut tampered = batch.clone();
    tampered.transactions[0] = TransactionAction::new(0, b"tampered".to_vec()).expect("valid");
    assert!(!commit.verify_batch(&tampered, &mut engine));
}

#[test]
fn f7_tampered_batch_size_fails_verify() {
    let mut engine = DistinctionEngine::new();
    let batch = sample_batch(&engine);
    let mut commit = BatchCommitment::compute(&batch, 0, 42, "l".into(), &mut engine)
        .expect("valid compute (invariant)");
    commit.batch_size = 999;
    assert!(!commit.verify_batch(&batch, &mut engine));
}

#[test]
fn empty_leader_id_rejected() {
    let mut engine = DistinctionEngine::new();
    let batch = sample_batch(&engine);
    let err = BatchCommitment::compute(&batch, 0, 0, String::new(), &mut engine)
        .expect_err("empty leader_id must reject");
    assert!(matches!(err, CommitmentError::EmptyLeaderId));
}

#[test]
fn oversized_leader_id_rejected() {
    let mut engine = DistinctionEngine::new();
    let batch = sample_batch(&engine);
    let big = "x".repeat(MAX_LEADER_ID_LEN + 1);
    let err = BatchCommitment::compute(&batch, 0, 0, big, &mut engine)
        .expect_err("oversized leader_id must reject");
    assert!(matches!(err, CommitmentError::LeaderIdTooLong { .. }));
}

#[test]
fn cache_stores_and_retrieves_by_hash() {
    let (mut engine, mut agent) = fresh();
    let batch = sample_batch(&engine);
    let commit = sample_commitment(&mut engine);
    let hash = commit.commitment_hash;
    agent.cache_batch(batch.clone(), commit.clone());
    assert!(agent.has_cached(&hash));
    let (cached_batch, cached_commit) =
        agent.get_cached_batch(&hash).expect("cache hit (invariant)");
    assert_eq!(cached_batch, &batch);
    assert_eq!(cached_commit, &commit);
}

#[test]
fn cache_lru_eviction_at_capacity() {
    let mut engine = DistinctionEngine::new();
    let mut agent = CommitmentAgent::with_capacity(&engine, 2);
    let batch = sample_batch(&engine);
    let c1 = BatchCommitment::compute(&batch, 0, 0, "a".into(), &mut engine).expect("valid");
    let c2 = BatchCommitment::compute(&batch, 1, 0, "a".into(), &mut engine).expect("valid");
    let c3 = BatchCommitment::compute(&batch, 2, 0, "a".into(), &mut engine).expect("valid");
    agent.cache_batch(batch.clone(), c1.clone());
    agent.cache_batch(batch.clone(), c2.clone());
    agent.cache_batch(batch.clone(), c3.clone());
    assert!(!agent.has_cached(&c1.commitment_hash), "c1 should be evicted");
    assert!(agent.has_cached(&c2.commitment_hash));
    assert!(agent.has_cached(&c3.commitment_hash));
}

#[test]
fn advance_increments_processed_and_advances_root() {
    let (mut engine, mut agent) = fresh();
    let r0 = agent.local_root();
    let commit = sample_commitment(&mut engine);
    agent.advance(commit, &mut engine);
    assert_eq!(agent.commitments_processed(), 1);
    assert_ne!(agent.local_root(), r0);
}

#[test]
fn commitment_lca_impl_get_and_update_root() {
    let (_engine, mut agent) = fresh();
    let r0 = agent.get_current_root();
    let new_root = Distinction::from_bytes_unchecked([0xAB; 16]);
    agent.update_local_root(new_root);
    assert_ne!(agent.get_current_root(), r0);
    assert_eq!(agent.get_current_root(), new_root);
}

#[test]
fn cache_get_refreshes_recency() {
    let mut engine = DistinctionEngine::new();
    let mut agent = CommitmentAgent::with_capacity(&engine, 2);
    let batch = sample_batch(&engine);
    let c1 = BatchCommitment::compute(&batch, 0, 0, "a".into(), &mut engine).expect("valid");
    let c2 = BatchCommitment::compute(&batch, 1, 0, "a".into(), &mut engine).expect("valid");
    let c3 = BatchCommitment::compute(&batch, 2, 0, "a".into(), &mut engine).expect("valid");
    agent.cache_batch(batch.clone(), c1.clone());
    agent.cache_batch(batch.clone(), c2.clone());
    assert!(agent.get_cached_batch(&c1.commitment_hash).is_some());
    agent.cache_batch(batch.clone(), c3.clone());
    assert!(agent.has_cached(&c1.commitment_hash));
    assert!(!agent.has_cached(&c2.commitment_hash), "c2 is now least recent");
    assert!(agent.has_cached(&c3.commitment_hash));
}

#[test]
fn cache_miss_returns_none() {
    let (_engine, mut agent) = fresh();
    assert!(agent.get_cached_batch(&[7u8; 32]).is_none());
    assert!(!agent.has_cached(&[7u8; 32]));
}

#[test]
fn cache_put_same_hash_replaces_entry() {
    let mut engine = DistinctionEngine::new();
    let mut agent = CommitmentAgent::with_capacity(&engine, 2);
    let batch = sample_batch(&engine);
    let c1 = BatchCommitment::compute(&batch, 0, 0, "a".into(), &mut engine).expect("valid");
    let mut other = batch.clone();
    other.transactions.pop();
    agent.cache_batch(batch.clone(), c1.clone());
    agent.cache_batch(other.clone(), c1.clone());
    let (b, _) = agent.get_cached_batch(&c1.commitment_hash).expect("hit");
    assert_eq!(b, &other);
}

#[test]
fn commitment_fields_recorded() {
    let mut engine = DistinctionEngine::new();
    let batch = sample_batch(&engine);
    let c = BatchCommitment::compute(&batch, 5, 7, "lead".into(), &mut engine).expect("valid");
    assert_eq!(c.nonce, 5);
    assert_eq!(c.epoch, 7);
    assert_eq!(c.leader_id, "lead");
    assert_eq!(c.batch_size, 2);
}

#[test]
fn leader_id_at_cap_accepted() {
    let mut engine = DistinctionEngine::new();
    let batch = sample_batch(&engine);
    let at_cap = "y".repeat(MAX_LEADER_ID_LEN);
    assert!(BatchCommitment::compute(&batch, 0, 0, at_cap, &mut engine).is_ok());
}

#[test]
fn commitment_error_messages() {
    assert_eq!(CommitmentError::EmptyLeaderId.to_display_string(), "empty leader_id");
    let e = CommitmentError::LeaderIdTooLong { got: 65, cap: 64 };
    assert_eq!(e.to_display_string(), "leader_id too long: 65 bytes (cap 64)");
}

#[test]
fn canonical_structure_is_deterministic_per_hash() {
    let mut engine = DistinctionEngine::new();
    let c = sample_commitment(&mut engine);
    let d1 = c.clone().to_canonical_structure(&mut engine);
    let d2 = c.to_canonical_structure(&mut engine);
    assert_eq!(d1, d2);
    assert_ne!(d1, engine.d0());
}

#[test]
fn default_agent_capacity_constant() {
    assert_eq!(COMMITMENT_CACHE_CAP, 1000);
}

#[test]
fn commitment_verifies_on_another_engine() {
    let mut producer = DistinctionEngine::new();
    let batch = sample_batch(&producer);
    let commit = BatchCommitment::compute(&batch, 3, 9, "leader".into(), &mut producer).expect("valid");
    let mut verifier = DistinctionEngine::new();
    assert!(commit.verify_batch(&batch, &mut verifier));
    assert!(commit.verify_batch(&batch, &mut producer));
}
