use koru_lambda_core::subsystems::compactor::{CompactionAction, StructuralCompactor, ThermalState};
use koru_lambda_core::{Canonicalizable, DistinctionEngine, LocalCausalAgent};

const TEST_HOT: usize = 3;
const TEST_WARM: usize = 1;

#[test]
fn test_compactor_genesis() {
    let mut engine = DistinctionEngine::new();
    let compactor = StructuralCompactor::new(&mut engine, TEST_HOT, TEST_WARM);
    assert_eq!(compactor.get_stats().compaction_operations, 0);
    assert_eq!(compactor.get_stats().archived_count, 0);
    assert!(!compactor.get_current_root().to_hex().is_empty());
    assert_eq!(compactor.thresholds(), (TEST_HOT, TEST_WARM));
}

#[test]
fn test_sis_calculation() {
    let mut engine = DistinctionEngine::new();
    let compactor = StructuralCompactor::new(&mut engine, TEST_HOT, TEST_WARM);
    let d0 = engine.d0();
    let d1 = engine.d1();
    let a = engine.synthesize(d0, d1);
    let _b = engine.synthesize(a, d0);
    let _c = engine.synthesize(a, d1);
    let sis_map = compactor.calculate_sis(&engine);
    let d0_id = d0.to_hex();
    let d1_id = d1.to_hex();
    let get = |k: &str| sis_map.iter().find(|(id, _)| id == k).map(|(_, s)| *s);
    assert!(get(&d0_id).is_some());
    assert!(get(&d1_id).is_some());
    assert!(get(&d0_id).unwrap() >= 3);
    assert!(get(&d1_id).unwrap() >= 3);
}

#[test]
fn test_thermal_classification_three_band() {
    let mut engine = DistinctionEngine::new();
    let mut compactor = StructuralCompactor::new(&mut engine, 3, 1);
    let d0 = engine.d0();
    let d1 = engine.d1();
    let a = engine.synthesize(d0, d1);
    let _b = engine.synthesize(a, d0);
    let _c = engine.synthesize(a, d1);
    let sis_map = compactor.calculate_sis(&engine);
    compactor.classify_thermal_states(&sis_map);
    assert_eq!(compactor.get_thermal_state(&d0.to_hex()), Some(&ThermalState::Hot));
    assert_eq!(compactor.get_thermal_state(&d1.to_hex()), Some(&ThermalState::Hot));
    let stats = compactor.get_stats();
    assert!(stats.hot_count >= 2);
}

#[test]
fn test_compaction_action_canonical_drops_archived_ids() {
    let mut engine = DistinctionEngine::new();
    let action1 = CompactionAction { sis_threshold: 3, preserved_count: 10 };
    let action2 = CompactionAction { sis_threshold: 3, preserved_count: 10 };
    let d1 = action1.to_canonical_structure(&mut engine);
    let d2 = action2.to_canonical_structure(&mut engine);
    assert_eq!(d1.to_hex(), d2.to_hex());
}

#[test]
fn test_compaction_reduces_active_set() {
    let mut engine = DistinctionEngine::new();
    let mut compactor = StructuralCompactor::new(&mut engine, 5, 2);
    let d0 = engine.d0();
    let d1 = engine.d1();
    let a = engine.synthesize(d0, d1);
    for i in 0..10 {
        let byte = (i as u8).to_canonical_structure(&mut engine);
        engine.synthesize(a, byte);
    }
    let action = compactor.compact(&engine);
    assert!(action.preserved_count > 0);
    let stats = compactor.get_stats();
    assert!(stats.total_distinctions > stats.hot_count);
}

#[test]
fn test_compact_does_not_increment_compaction_count() {
    let mut engine = DistinctionEngine::new();
    let mut compactor = StructuralCompactor::new(&mut engine, 3, 1);
    assert_eq!(compactor.get_stats().compaction_operations, 0);
    let _ = compactor.compact(&engine);
    assert_eq!(compactor.get_stats().compaction_operations, 0);
}

#[test]
fn test_synthesize_action_does_not_archive_its_own_event() {
    let mut engine = DistinctionEngine::new();
    let mut compactor = StructuralCompactor::new(&mut engine, 3, 1);
    let d0 = engine.d0();
    let d1 = engine.d1();
    let _ = engine.synthesize(d0, d1);
    let action = compactor.compact(&engine);
    let archived_before = compactor.get_stats().archived_count;
    let new_root = compactor.synthesize_action(action, &mut engine);
    assert_eq!(compactor.get_stats().compaction_operations, 1);
    assert!(!compactor.is_archived(&new_root.to_hex()));
    assert_eq!(compactor.get_stats().archived_count, archived_before);
}

#[test]
fn test_local_causal_agent_implementation() {
    let mut engine = DistinctionEngine::new();
    let mut compactor = StructuralCompactor::new(&mut engine, 3, 1);
    let d0 = engine.d0();
    let d1 = engine.d1();
    let _a = engine.synthesize(d0, d1);
    let action = compactor.compact(&engine);
    let initial_root = compactor.get_current_root().to_hex();
    let new_root = compactor.synthesize_action(action, &mut engine);
    assert_ne!(new_root.to_hex(), initial_root);
    assert_eq!(new_root.to_hex(), compactor.get_current_root().to_hex());
}

#[test]
fn test_pressure_cooker_behavior() {
    let mut engine = DistinctionEngine::new();
    let mut compactor = StructuralCompactor::new(&mut engine, 6, 2);
    let d0 = engine.d0();
    let d1 = engine.d1();
    let hub = engine.synthesize(d0, d1);
    for i in 0..20 {
        let byte = (i as u8).to_canonical_structure(&mut engine);
        engine.synthesize(hub, byte);
    }
    let initial_count = engine.distinction_count();
    let _action = compactor.compact(&engine);
    let stats = compactor.get_stats();
    assert!(stats.total_distinctions > stats.hot_count);
    assert!(stats.hot_count >= 1);
    assert!(stats.warm_count + stats.cold_count > 0);
    let compression_ratio = initial_count as f64 / stats.hot_count.max(1) as f64;
    assert!(compression_ratio > 1.5, "Compression ratio should be > 1.5x");
}

#[test]
fn compactor_classifies_user_map_and_archives_cold() {
    let mut engine = DistinctionEngine::new();
    let mut compactor = StructuralCompactor::new(&mut engine, 5, 2);
    let map = vec![("a".to_string(), 7usize), ("b".to_string(), 3), ("c".to_string(), 1)];
    compactor.classify_thermal_states(&map);
    assert_eq!(compactor.get_thermal_state("a"), Some(&ThermalState::Hot));
    assert_eq!(compactor.get_thermal_state("b"), Some(&ThermalState::Warm));
    assert_eq!(compactor.get_thermal_state("c"), Some(&ThermalState::Cold));
    assert_eq!(compactor.get_thermal_state("d"), None);
    let st = compactor.get_stats();
    assert_eq!((st.total_distinctions, st.hot_count, st.warm_count, st.cold_count), (3, 1, 1, 1));
    assert!(!compactor.is_archived("c"));
}

#[test]
fn compact_archives_exactly_the_cold_band() {
    let mut engine = DistinctionEngine::new();
    let mut compactor = StructuralCompactor::new(&mut engine, 4, 3);
    let d0 = engine.d0();
    let d1 = engine.d1();
    let a = engine.synthesize(d0, d1);
    let leaf = engine.synthesize(a, d0);
    let action = compactor.compact(&engine);
    let st = compactor.get_stats();
    assert_eq!(st.total_distinctions, engine.distinction_count());
    assert_eq!(action.sis_threshold, 4);
    assert_eq!(action.preserved_count, st.hot_count + st.warm_count);
    assert_eq!(st.archived_count, st.cold_count);
    // a leaf has degree 2 (< warm 3) and is archived.
    assert!(compactor.is_archived(&leaf.to_hex()));
    assert_eq!(compactor.get_thermal_state(&leaf.to_hex()), Some(&ThermalState::Cold));
    // a second pass archives nothing new.
    let _ = compactor.compact(&engine);
    assert_eq!(compactor.get_stats().archived_count, st.archived_count);
}

#[test]
fn set_thresholds_keeps_last_classification() {
    let mut engine = DistinctionEngine::new();
    let mut compactor = StructuralCompactor::new(&mut engine, 5, 2);
    compactor.classify_thermal_states(&vec![("x".to_string(), 3usize)]);
    compactor.set_thresholds(3, 1);
    assert_eq!(compactor.thresholds(), (3, 1));
    assert_eq!(compactor.get_thermal_state("x"), Some(&ThermalState::Warm));
    compactor.classify_thermal_states(&vec![("x".to_string(), 3usize)]);
    assert_eq!(compactor.get_thermal_state("x"), Some(&ThermalState::Hot));
}
