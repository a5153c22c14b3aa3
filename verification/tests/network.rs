use koru_lambda_core::subsystems::network::{NetworkAction, NetworkStats, PeerIdentity, MAX_PEER_ID_LEN};
use koru_lambda_core::subsystems::runtime::{NetworkMessage, RuntimeAction};
use koru_lambda_core::subsystems::validator::{TransactionAction, TransactionBatch};
use koru_lambda_core::{Canonicalizable, DistinctionEngine};

#[test]
fn test_peer_identity_creation() {
    let mut engine = DistinctionEngine::new();
    let peer1 = PeerIdentity::new("peer_1".to_string(), &mut engine).unwrap();
    let peer2 = PeerIdentity::new("peer_1".to_string(), &mut engine).unwrap();
    let peer3 = PeerIdentity::new("peer_2".to_string(), &mut engine).unwrap();
    assert_eq!(peer1.distinction_id(), peer2.distinction_id());
    assert_ne!(peer1.distinction_id(), peer3.distinction_id());
}

#[test]
fn peer_identity_rejects_empty_id() {
    let mut engine = DistinctionEngine::new();
    let result = PeerIdentity::new(String::new(), &mut engine);
    assert!(result.is_err());
}

#[test]
fn peer_identity_rejects_oversized_id() {
    let mut engine = DistinctionEngine::new();
    let oversized = "a".repeat(MAX_PEER_ID_LEN + 1);
    let dist_before = engine.distinction_count();
    let result = PeerIdentity::new(oversized, &mut engine);
    assert!(result.is_err());
    assert_eq!(engine.distinction_count(), dist_before);
}

#[test]
fn peer_identity_accepts_id_at_cap_boundary() {
    let mut engine = DistinctionEngine::new();
    let at_cap = "a".repeat(MAX_PEER_ID_LEN);
    let result = PeerIdentity::new(at_cap, &mut engine);
    assert!(result.is_ok());
}

#[test]
fn peer_identity_error_messages() {
    let mut engine = DistinctionEngine::new();
    assert_eq!(PeerIdentity::new(String::new(), &mut engine).unwrap_err(), "peer id must not be empty");
    assert_eq!(
        PeerIdentity::new("b".repeat(65), &mut engine).unwrap_err(),
        "peer id length 65 exceeds MAX_PEER_ID_LEN (64)"
    );
}

#[test]
fn peer_identity_is_registered_and_hex() {
    let mut engine = DistinctionEngine::new();
    let peer = PeerIdentity::new("p".to_string(), &mut engine).unwrap();
    assert_eq!(peer.id, "p");
    assert!(engine.has(peer.distinction));
    let id = peer.distinction_id();
    assert_eq!(id.len(), 32);
    assert_eq!(id, peer.distinction.to_hex());
    assert_ne!(peer.distinction, engine.d0());
}

#[test]
fn test_network_action_canonical() {
    let mut engine = DistinctionEngine::new();
    let peer = PeerIdentity::new("peer_1".to_string(), &mut engine).unwrap();
    let action1 = NetworkAction::PeerJoined { peer: peer.clone() };
    let action2 = NetworkAction::PeerJoined { peer: peer.clone() };
    let d1 = action1.to_canonical_structure(&mut engine);
    let d2 = action2.to_canonical_structure(&mut engine);
    assert_eq!(d1.to_hex(), d2.to_hex());
}

#[test]
fn network_action_join_is_d1_with_peer() {
    let mut engine = DistinctionEngine::new();
    let peer = PeerIdentity::new("peer_1".to_string(), &mut engine).unwrap();
    let d = NetworkAction::PeerJoined { peer: peer.clone() }.to_canonical_structure(&mut engine);
    let d1 = engine.d1();
    assert_eq!(d, engine.synthesize(d1, peer.distinction));
}

#[test]
fn network_action_batch_proposed_distinct_roots_distinct_ids() {
    let mut engine = DistinctionEngine::new();
    let (d0, d1) = (engine.d0(), engine.d1());
    let r = engine.synthesize(d0, d1);
    let a = NetworkAction::BatchProposed {
        batch: TransactionBatch { previous_root: d0, transactions: vec![] },
    }
    .to_canonical_structure(&mut engine);
    let b = NetworkAction::BatchProposed {
        batch: TransactionBatch { previous_root: r, transactions: vec![] },
    }
    .to_canonical_structure(&mut engine);
    assert_ne!(a, b);
    assert_eq!(b, engine.synthesize(d0, r));
}

#[test]
fn network_action_epoch_deterministic_and_distinct() {
    let mut engine = DistinctionEngine::new();
    let e1 = NetworkAction::EpochAdvanced { new_epoch: 1 }.to_canonical_structure(&mut engine);
    let e1b = NetworkAction::EpochAdvanced { new_epoch: 1 }.to_canonical_structure(&mut engine);
    let e2 = NetworkAction::EpochAdvanced { new_epoch: 2 }.to_canonical_structure(&mut engine);
    assert_eq!(e1, e1b);
    assert_ne!(e1, e2);
}

#[test]
fn test_runtime_action_peer_discovered_canonical() {
    let mut engine = DistinctionEngine::new();
    let action = RuntimeAction::PeerDiscovered { peer_id: "12D3KooWTest".to_string() };
    let d1 = action.clone().to_canonical_structure(&mut engine);
    let d2 = action.to_canonical_structure(&mut engine);
    assert_eq!(d1.to_hex(), d2.to_hex());
    assert!(!d1.to_hex().is_empty());
}

#[test]
fn test_runtime_action_batch_received_canonical() {
    let mut engine = DistinctionEngine::new();
    let action = RuntimeAction::BatchReceived { epoch: 42, leader_id: "node_1".to_string() };
    let d1 = action.clone().to_canonical_structure(&mut engine);
    let d2 = action.to_canonical_structure(&mut engine);
    assert_eq!(d1.to_hex(), d2.to_hex());
    let action2 = RuntimeAction::BatchReceived { epoch: 43, leader_id: "node_1".to_string() };
    let d3 = action2.to_canonical_structure(&mut engine);
    assert_ne!(d1.to_hex(), d3.to_hex());
}

#[test]
fn test_runtime_action_epoch_advanced_canonical() {
    let mut engine = DistinctionEngine::new();
    let action = RuntimeAction::EpochAdvanced { new_epoch: 100 };
    let d = action.to_canonical_structure(&mut engine);
    assert!(!d.to_hex().is_empty());
    let action2 = RuntimeAction::EpochAdvanced { new_epoch: 100 };
    let d2 = action2.to_canonical_structure(&mut engine);
    assert_eq!(d.to_hex(), d2.to_hex());
}

#[test]
fn runtime_peer_discovered_uses_first_sixteen_bytes() {
    let mut engine = DistinctionEngine::new();
    let a = RuntimeAction::PeerDiscovered { peer_id: "0123456789abcdefXXXX".to_string() }
        .to_canonical_structure(&mut engine);
    let b = RuntimeAction::PeerDiscovered { peer_id: "0123456789abcdefYY".to_string() }
        .to_canonical_structure(&mut engine);
    let c = RuntimeAction::PeerDiscovered { peer_id: "0123456789abcdeZ".to_string() }
        .to_canonical_structure(&mut engine);
    assert_eq!(a, b);
    assert_ne!(a, c);
}

#[test]
fn runtime_batch_received_uses_first_eight_leader_bytes() {
    let mut engine = DistinctionEngine::new();
    let a = RuntimeAction::BatchReceived { epoch: 1, leader_id: "leader-01-x".to_string() }
        .to_canonical_structure(&mut engine);
    let b = RuntimeAction::BatchReceived { epoch: 1, leader_id: "leader-01-y".to_string() }
        .to_canonical_structure(&mut engine);
    assert_eq!(a, b);
}

#[test]
fn runtime_epoch_and_network_epoch_differ_by_seed() {
    let mut engine = DistinctionEngine::new();
    let r = RuntimeAction::EpochAdvanced { new_epoch: 7 }.to_canonical_structure(&mut engine);
    let n = NetworkAction::EpochAdvanced { new_epoch: 7 }.to_canonical_structure(&mut engine);
    assert_ne!(r, n);
}

#[test]
fn network_message_and_stats_values() {
    let batch = TransactionBatch {
        previous_root: DistinctionEngine::new().d0(),
        transactions: vec![TransactionAction { nonce: 0, data: vec![1, 2, 3] }],
    };
    let msg = NetworkMessage::BatchProposal { epoch: 5, batch: batch.clone(), leader_id: "node_1".to_string() };
    match msg.clone() {
        NetworkMessage::BatchProposal { epoch, batch: b, leader_id } => {
            assert_eq!(epoch, 5);
            assert_eq!(b, batch);
            assert_eq!(leader_id, "node_1");
        },
        _ => panic!("wrong variant"),
    }
    let stats = NetworkStats {
        current_epoch: 1,
        validator_count: 2,
        events_processed: 3,
        consensus_nonce: 4,
        network_root: "00".to_string(),
    };
    assert_eq!(stats.clone().validator_count, 2);
}

#[test]
fn peer_identity_same_across_engines() {
    let mut e1 = DistinctionEngine::new();
    let mut e2 = DistinctionEngine::new();
    let (d0, d1) = (e2.d0(), e2.d1());
    let x = e2.synthesize(d0, d1);
    let _ = e2.synthesize(x, d0);
    let p1 = PeerIdentity::new("validator-7".to_string(), &mut e1).unwrap();
    let p2 = PeerIdentity::new("validator-7".to_string(), &mut e2).unwrap();
    assert_eq!(p1, p2);
}
