use koru_lambda_core::{ByteMapping, Canonicalizable, DistinctionEngine};

#[test]
fn same_byte_same_distinction_on_same_engine() {
    let mut e = DistinctionEngine::new();
    let a = ByteMapping::map_byte_to_distinction(42, &mut e);
    let b = ByteMapping::map_byte_to_distinction(42, &mut e);
    assert_eq!(a, b);
}

#[test]
fn different_bytes_different_distinctions() {
    let mut e = DistinctionEngine::new();
    let mut seen = std::collections::HashSet::with_capacity(256);
    for byte in 0u8..=255 {
        let d = ByteMapping::map_byte_to_distinction(byte, &mut e);
        assert!(seen.insert(d), "byte {byte} produced a duplicate distinction (collides with an earlier byte)");
    }
    assert_eq!(seen.len(), 256);
}

#[test]
fn same_byte_same_distinction_across_engines() {
    let mut e1 = DistinctionEngine::new();
    let mut e2 = DistinctionEngine::new();
    let a = ByteMapping::map_byte_to_distinction(0xAB, &mut e1);
    let b = ByteMapping::map_byte_to_distinction(0xAB, &mut e2);
    assert_eq!(a.as_bytes(), b.as_bytes());
}

#[test]
fn no_phantom_nodes_after_byte_fold() {
    let mut e = DistinctionEngine::new();
    let tip = ByteMapping::map_byte_to_distinction(0x42, &mut e);
    assert_ne!(tip, e.d0());
    assert_ne!(tip, e.d1());
    assert!(e.degree(tip) >= 2);
    assert!(e.parents_of(tip).is_some());
}

#[test]
fn distinction_count_grows_with_byte_folds() {
    let mut e = DistinctionEngine::new();
    let count_initial = e.distinction_count();
    let _ = ByteMapping::map_byte_to_distinction(0x00, &mut e);
    let count_after_one = e.distinction_count();
    assert!(count_after_one > count_initial);

    let _ = ByteMapping::map_byte_to_distinction(0xFF, &mut e);
    let count_after_two = e.distinction_count();
    assert!(count_after_two > count_after_one);
}

#[test]
fn fold_law_byte_coverage_exact_bound() {
    let mut e = DistinctionEngine::new();
    for byte in 0u8..=255 {
        let _ = ByteMapping::map_byte_to_distinction(byte, &mut e);
    }
    assert_eq!(e.degree(e.d0()), 512, "Fold Law byte coverage: d0 degree");
    assert_eq!(e.degree(e.d1()), 512, "Fold Law byte coverage: d1 degree");
}

#[test]
fn fold_law_subset_predicted_degree() {
    let mut e = DistinctionEngine::new();
    for byte in 0u8..=127 {
        let _ = ByteMapping::map_byte_to_distinction(byte, &mut e);
    }
    assert_eq!(e.degree(e.d0()), 384, "subset fold: d0 degree");
    assert_eq!(e.degree(e.d1()), 384, "subset fold: d1 degree");
}

#[test]
fn fold_law_d0_d1_are_top_two_by_degree() {
    let mut e = DistinctionEngine::new();
    for byte in 0u8..=255 {
        let _ = ByteMapping::map_byte_to_distinction(byte, &mut e);
    }
    let d0_degree = e.degree(e.d0());
    let d1_degree = e.degree(e.d1());
    let max_non_primordial_degree: usize = e
        .snapshot_distinctions()
        .into_iter()
        .filter(|d| *d != e.d0() && *d != e.d1())
        .map(|d| e.degree(d))
        .max()
        .unwrap_or(0);
    assert!(d0_degree > max_non_primordial_degree);
    assert!(d1_degree > max_non_primordial_degree);
}

#[test]
fn fold_law_d0_d1_hub_ratio_clears_100x_gate() {
    let mut e = DistinctionEngine::new();
    for byte in 0u8..=255 {
        let _ = ByteMapping::map_byte_to_distinction(byte, &mut e);
    }
    let d0_degree = e.degree(e.d0());
    let d1_degree = e.degree(e.d1());
    let primordial_min = d0_degree.min(d1_degree);
    let max_nonprim_degree: usize = e
        .snapshot_distinctions()
        .into_iter()
        .filter(|d| *d != e.d0() && *d != e.d1())
        .map(|d| e.degree(d))
        .max()
        .unwrap_or(0);
    assert!(max_nonprim_degree > 0, "non-primordials exist after 256-byte fold (sanity)");
    let ratio = primordial_min as f64 / max_nonprim_degree as f64;
    assert!(ratio >= 100.0, "Fold Law hub ratio {ratio:.1}x misses 100x target");
}

#[test]
fn fold_law_structural_invariant_holds_after_exercise() {
    let mut e = DistinctionEngine::new();
    for byte in 0u8..=255 {
        let _ = ByteMapping::map_byte_to_distinction(byte, &mut e);
    }
    e.check_structural_invariant().expect("r = 2d − 3 holds after byte fold (invariant)");
}

#[test]
fn canonicalizable_u8_matches_byte_mapping() {
    let mut e = DistinctionEngine::new();
    let via_trait = 0x42_u8.to_canonical_structure(&mut e);
    let via_direct = ByteMapping::map_byte_to_distinction(0x42, &mut e);
    assert_eq!(via_trait, via_direct);
}

#[test]
fn byte_fold_registers_exactly_seventeen_nodes_on_fresh_engine() {
    // Seed child plus 16 bit-step children, all new on a fresh engine.
    let mut e = DistinctionEngine::new();
    let _ = ByteMapping::map_byte_to_distinction(0x5A, &mut e);
    assert_eq!(e.distinction_count(), 2 + 17);
    assert_eq!(ByteMapping::BITS_PER_BYTE, 8);
}
