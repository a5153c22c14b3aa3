use koru_lambda_core::subsystems::validator::{
    ConsensusValidator, TransactionAction, TransactionBatch, ValidatorError, MAX_DATA_LEN,
    MAX_TRANSACTIONS_PER_BATCH,
};
use koru_lambda_core::{synthesize_causal_action, Distinction, DistinctionEngine, LocalCausalAgent};

fn fresh() -> (DistinctionEngine, ConsensusValidator) {
    let engine = DistinctionEngine::new();
    let validator = ConsensusValidator::new(&engine);
    (engine, validator)
}

fn tx(nonce: u64, data: &[u8]) -> TransactionAction {
    TransactionAction::new(nonce, data.to_vec()).expect("test tx valid (invariant)")
}

#[test]
fn valid_batch_advances_root_and_nonce() {
    let (mut engine, mut v) = fresh();
    let batch = TransactionBatch {
        previous_root: v.state_root_id(),
        transactions: vec![tx(0, b"hello"), tx(1, b"world")],
    };
    let new_root = v.validate_batch(&mut engine, &batch).expect("valid batch");
    assert_ne!(new_root, engine.d0());
    assert_eq!(v.state_root_id(), new_root);
    assert_eq!(v.expected_nonce(), 2);
}

#[test]
fn sequential_batches_chain_correctly() {
    let (mut engine, mut v) = fresh();
    let b1 = TransactionBatch { previous_root: v.state_root_id(), transactions: vec![tx(0, b"a")] };
    let root1 = v.validate_batch(&mut engine, &b1).expect("b1 valid");
    let b2 = TransactionBatch { previous_root: root1, transactions: vec![tx(1, b"b")] };
    let root2 = v.validate_batch(&mut engine, &b2).expect("b2 valid");
    assert_ne!(root1, root2);
    assert_eq!(v.expected_nonce(), 2);
}

#[test]
fn v3_data_cap_rejects_oversized_tx() {
    let (mut engine, mut v) = fresh();
    let oversized = vec![0u8; MAX_DATA_LEN + 1];
    let batch = TransactionBatch {
        previous_root: v.state_root_id(),
        transactions: vec![TransactionAction { nonce: 0, data: oversized }],
    };
    let err = v.validate_batch(&mut engine, &batch).expect_err("oversized data must reject");
    assert!(matches!(err, ValidatorError::DataTooLarge { .. }));
}

#[test]
fn v3_ctor_rejects_oversized_data() {
    let err = TransactionAction::new(0, vec![0u8; MAX_DATA_LEN + 1]).expect_err("ctor must reject oversized");
    assert!(matches!(err, ValidatorError::DataTooLarge { .. }));
}

#[test]
fn v4_error_messages_have_bounded_length() {
    let d = Distinction::from_bytes_unchecked([0xAA; 16]);
    let variants = [
        ValidatorError::RootMismatch { expected: d, got: d },
        ValidatorError::EmptyBatch,
        ValidatorError::BatchTooLarge { got: usize::MAX, cap: MAX_TRANSACTIONS_PER_BATCH },
        ValidatorError::NonceMismatch { tx_index: 0, expected: u64::MAX, got: 0 },
        ValidatorError::DataTooLarge { tx_index: 0, got: usize::MAX, cap: MAX_DATA_LEN },
        ValidatorError::EmptyData { tx_index: 0 },
    ];
    for e in &variants {
        let msg = e.to_display_string();
        assert!(msg.len() < 512, "error msg unbounded: {msg}");
    }
}

#[test]
fn v5_rejected_batch_leaves_engine_state_invariant() {
    let (mut engine, mut v) = fresh();
    let count_before = engine.distinction_count();
    let root_before = v.state_root_id();
    let nonce_before = v.expected_nonce();

    let batch = TransactionBatch {
        previous_root: v.state_root_id(),
        transactions: vec![tx(0, b"ok"), tx(5, b"bad nonce")],
    };
    let err = v.validate_batch(&mut engine, &batch).expect_err("batch must reject");
    assert!(matches!(err, ValidatorError::NonceMismatch { .. }));

    assert_eq!(engine.distinction_count(), count_before, "V5: engine state must be invariant on rejection");
    assert_eq!(v.state_root_id(), root_before, "V5: validator root must be invariant on rejection");
    assert_eq!(v.expected_nonce(), nonce_before, "V5: validator nonce must be invariant on rejection");
}

#[test]
fn v5_root_mismatch_also_atomic() {
    let (mut engine, mut v) = fresh();
    let count_before = engine.distinction_count();
    let batch = TransactionBatch { previous_root: engine.d1(), transactions: vec![tx(0, b"ok")] };
    let _ = v.validate_batch(&mut engine, &batch).expect_err("wrong root");
    assert_eq!(engine.distinction_count(), count_before);
}

#[test]
fn v6_restore_state_is_atomic() {
    let (_engine, mut v) = fresh();
    let target_root = Distinction::from_bytes_unchecked([0x42; 16]);
    v.restore_state(target_root, 999);
    assert_eq!(v.state_root_id(), target_root);
    assert_eq!(v.expected_nonce(), 999);
}

#[test]
fn v8_empty_data_rejected_at_ctor() {
    let err = TransactionAction::new(0, vec![]).expect_err("empty data must reject");
    assert!(matches!(err, ValidatorError::EmptyData { .. }));
}

#[test]
fn v8_empty_data_rejected_at_validation() {
    let (mut engine, mut v) = fresh();
    let batch = TransactionBatch {
        previous_root: v.state_root_id(),
        transactions: vec![TransactionAction { nonce: 0, data: vec![] }],
    };
    let err = v.validate_batch(&mut engine, &batch).expect_err("empty data must reject");
    assert!(matches!(err, ValidatorError::EmptyData { .. }));
}

#[test]
fn validator_lca_impl_get_and_update_root() {
    let (mut engine, mut v) = fresh();
    let r0 = v.get_current_root();
    let action = tx(0, b"single");
    let new_root = synthesize_causal_action(v.get_current_root(), action, &mut engine);
    v.update_local_root(new_root);
    assert_ne!(v.get_current_root(), r0);
    assert_eq!(v.get_current_root(), new_root);
}

#[test]
fn empty_batch_is_rejected_with_exact_error() {
    let (mut engine, mut v) = fresh();
    let batch = TransactionBatch { previous_root: v.state_root_id(), transactions: vec![] };
    assert_eq!(v.validate_batch(&mut engine, &batch), Err(ValidatorError::EmptyBatch));
}

#[test]
fn oversized_batch_is_rejected_with_exact_error() {
    let (mut engine, mut v) = fresh();
    let txs: Vec<TransactionAction> =
        (0..(MAX_TRANSACTIONS_PER_BATCH as u64 + 1)).map(|n| tx(n, b"x")).collect();
    let batch = TransactionBatch { previous_root: v.state_root_id(), transactions: txs };
    assert_eq!(
        v.validate_batch(&mut engine, &batch),
        Err(ValidatorError::BatchTooLarge {
            got: MAX_TRANSACTIONS_PER_BATCH + 1,
            cap: MAX_TRANSACTIONS_PER_BATCH
        })
    );
}

#[test]
fn nonce_mismatch_names_first_bad_position() {
    let (mut engine, mut v) = fresh();
    let batch = TransactionBatch {
        previous_root: v.state_root_id(),
        transactions: vec![tx(0, b"a"), tx(1, b"b"), tx(7, b"c")],
    };
    assert_eq!(
        v.validate_batch(&mut engine, &batch),
        Err(ValidatorError::NonceMismatch { tx_index: 2, expected: 2, got: 7 })
    );
}

#[test]
fn root_mismatch_reports_both_roots() {
    let (mut engine, mut v) = fresh();
    let batch = TransactionBatch { previous_root: engine.d1(), transactions: vec![tx(0, b"ok")] };
    assert_eq!(
        v.validate_batch(&mut engine, &batch),
        Err(ValidatorError::RootMismatch { expected: engine.d0(), got: engine.d1() })
    );
}

#[test]
fn validator_messages_are_exact() {
    assert_eq!(
        ValidatorError::BatchTooLarge { got: 1025, cap: 1024 }.to_display_string(),
        "batch too large: 1025 transactions (cap 1024)"
    );
    assert_eq!(
        ValidatorError::NonceMismatch { tx_index: 3, expected: 10, got: 0 }.to_display_string(),
        "nonce mismatch at tx 3: expected 10, got 0"
    );
    assert_eq!(
        ValidatorError::DataTooLarge { tx_index: 0, got: 4097, cap: 4096 }.to_display_string(),
        "tx 0 data too large: 4097 bytes (cap 4096)"
    );
    assert_eq!(
        ValidatorError::EmptyData { tx_index: 12 }.to_display_string(),
        "tx 12: empty data (empty-data disallowed by design)"
    );
    assert_eq!(
        ValidatorError::EmptyBatch.to_display_string(),
        "empty batch: at least one transaction required"
    );
    let d = Distinction::from_bytes_unchecked([0u8; 16]);
    assert_eq!(
        ValidatorError::RootMismatch { expected: d, got: d }.to_display_string(),
        "root mismatch: expected Distinction(00000000000000000000000000000000), got Distinction(00000000000000000000000000000000)"
    );
    assert_eq!(
        ValidatorError::NonceMismatch { tx_index: 0, expected: u64::MAX, got: 0 }.to_display_string(),
        "nonce mismatch at tx 0: expected 18446744073709551615, got 0"
    );
}

#[test]
fn chained_batches_match_two_validators() {
    let (mut e1, mut v1) = fresh();
    let (mut e2, mut v2) = fresh();
    for round in 0..3u64 {
        let b1 = TransactionBatch {
            previous_root: v1.state_root_id(),
            transactions: vec![tx(2 * round, b"p"), tx(2 * round + 1, b"q")],
        };
        let b2 = TransactionBatch { previous_root: v2.state_root_id(), transactions: b1.transactions.clone() };
        let r1 = v1.validate_batch(&mut e1, &b1).expect("valid");
        let r2 = v2.validate_batch(&mut e2, &b2).expect("valid");
        assert_eq!(r1, r2);
    }
    assert_eq!(v1.expected_nonce(), 6);
    assert_eq!(e1.distinction_count(), e2.distinction_count());
}
