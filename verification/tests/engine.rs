use std::collections::HashSet;
use koru_lambda_core::{Distinction, DistinctionEngine, IdentityHasher, InvariantError, RawDistinctionId, SynthesisOutcome, VerifyError};

fn assert_send_sync<T: Send + Sync>() {}

#[test]
fn distinction_send_sync() {
    assert_send_sync::<Distinction>();
}

#[test]
fn distinction_size_align() {
    assert_eq!(std::mem::size_of::<Distinction>(), 16);
    assert_eq!(std::mem::align_of::<Distinction>(), 1);
}

#[test]
fn engine_is_append_only_by_api_surface() {
    let _ = DistinctionEngine::new;
}

#[test]
fn reads_leading_8_bytes_as_u64_le() {
    let mut h = IdentityHasher::default();
    let bytes = [
        0x01, 0x02, 0x03, 0x04, 0x05, 0x06, 0x07, 0x08, 0xff, 0xff, 0xff, 0xff, 0xff, 0xff, 0xff, 0xff,
    ];
    h.write(&bytes);
    let expected = u64::from_le_bytes([0x01, 0x02, 0x03, 0x04, 0x05, 0x06, 0x07, 0x08]);
    assert_eq!(h.finish(), expected);
}

#[test]
fn distinct_prefixes_give_distinct_hashes() {
    let mut h1 = IdentityHasher::default();
    let mut h2 = IdentityHasher::default();
    let bytes1 = [0u8; 16];
    let mut bytes2 = [0u8; 16];
    bytes2[0] = 1;
    h1.write(&bytes1);
    h2.write(&bytes2);
    assert_ne!(h1.finish(), h2.finish());
}

#[test]
fn million_distinct_inputs_million_distinct_hashes() {
    let mut seen = HashSet::with_capacity(1_000_000);
    let mut state = 0xdead_beef_cafe_babe_u64;
    for _ in 0..1_000_000 {
        state = state.wrapping_mul(6_364_136_223_846_793_005).wrapping_add(1_442_695_040_888_963_407);
        let mut full = [0u8; 16];
        full[..8].copy_from_slice(&state.to_le_bytes());
        full[8..].copy_from_slice(&state.swap_bytes().to_le_bytes());
        let mut h = IdentityHasher::default();
        h.write(&full);
        seen.insert(h.finish());
    }
    assert_eq!(seen.len(), 1_000_000);
}

#[test]
fn write_usize_is_no_op() {
    let mut h = IdentityHasher::default();
    let before = h.finish();
    h.write_usize(16);
    let after = h.finish();
    assert_eq!(before, after);
}

#[test]
fn fresh_engine_has_exactly_two_distinctions() {
    let e = DistinctionEngine::new();
    assert_eq!(e.distinction_count(), 2);
}

#[test]
fn fresh_engine_relationship_count_is_one() {
    let e = DistinctionEngine::new();
    assert_eq!(e.relationship_count(), 1);
}

#[test]
fn primordials_have_no_parents() {
    let e = DistinctionEngine::new();
    assert!(e.parents_of(e.d0()).is_none());
    assert!(e.parents_of(e.d1()).is_none());
}

#[test]
fn primordials_have_degree_one() {
    let e = DistinctionEngine::new();
    assert_eq!(e.degree(e.d0()), 1);
    assert_eq!(e.degree(e.d1()), 1);
}

#[test]
fn structural_invariant_holds_at_construction() {
    let e = DistinctionEngine::new();
    e.check_structural_invariant().expect("fresh engine satisfies r=2d−3 with d=2, r=1 (invariant)");
}

#[test]
fn synthesize_on_cold_engine_does_not_panic() {
    let mut e = DistinctionEngine::new();
    let d0_before = e.degree(e.d0());
    let d1_before = e.degree(e.d1());

    let c = e.synthesize(e.d0(), e.d1());

    assert_eq!(e.degree(c), 2);
    let (p0, p1) = e.parents_of(c).expect("non-primordial has parents (invariant)");
    assert!(p0.as_bytes() <= p1.as_bytes());
    assert!((p0 == e.d0() && p1 == e.d1()) || (p0 == e.d1() && p1 == e.d0()));
    assert_eq!(e.degree(e.d0()), d0_before + 1);
    assert_eq!(e.degree(e.d1()), d1_before + 1);
}

#[test]
fn novel_child_used_as_parent_no_expect_panic() {
    let mut e = DistinctionEngine::new();
    let c = e.synthesize(e.d0(), e.d1());
    let _ = e.synthesize(c, e.d0());
    let _ = e.synthesize(c, e.d1());
    let cc = e.synthesize(c, c);
    assert_eq!(cc, c);
}

#[test]
fn axiom1_determinism_same_inputs_same_output() {
    let mut e = DistinctionEngine::new();
    let a = e.synthesize(e.d0(), e.d1());
    let b = e.synthesize(e.d0(), e.d1());
    assert_eq!(a, b);
}

fn sliding_chain(e: &mut DistinctionEngine, len: usize) -> Vec<Distinction> {
    let mut chain = Vec::with_capacity(len);
    chain.push(e.d0());
    chain.push(e.d1());
    for i in 2..len {
        let next = e.synthesize(chain[i - 1], chain[i - 2]);
        chain.push(next);
    }
    chain
}

#[test]
fn axiom1_determinism_across_engines() {
    let mut e1 = DistinctionEngine::new();
    let mut e2 = DistinctionEngine::new();
    let c1 = sliding_chain(&mut e1, 102);
    let c2 = sliding_chain(&mut e2, 102);
    for (a, b) in c1.iter().zip(c2.iter()) {
        assert_eq!(a.as_bytes(), b.as_bytes());
    }
    assert_eq!(e1.distinction_count(), e2.distinction_count());
    assert_eq!(e1.relationship_count(), e2.relationship_count());
    e1.check_structural_invariant().expect("e1 invariant holds (invariant)");
    e2.check_structural_invariant().expect("e2 invariant holds (invariant)");
}

#[test]
fn axiom2_commutativity_pair_order_irrelevant() {
    let mut e = DistinctionEngine::new();
    let ab = e.synthesize(e.d0(), e.d1());
    let ba = e.synthesize(e.d1(), e.d0());
    assert_eq!(ab, ba);
}

#[test]
fn axiom2_commutativity_does_not_double_count() {
    let mut e = DistinctionEngine::new();
    let _ = e.synthesize(e.d0(), e.d1());
    let d0_deg_after_first = e.degree(e.d0());
    let count_after_first = e.distinction_count();

    let _ = e.synthesize(e.d1(), e.d0());

    assert_eq!(e.distinction_count(), count_after_first);
    assert_eq!(e.degree(e.d0()), d0_deg_after_first);
}

#[test]
fn axiom3_irreflexivity_synth_with_self_is_self() {
    let mut e = DistinctionEngine::new();
    assert_eq!(e.synthesize(e.d0(), e.d0()), e.d0());
    assert_eq!(e.synthesize(e.d1(), e.d1()), e.d1());

    let c = e.synthesize(e.d0(), e.d1());
    assert_eq!(e.synthesize(c, c), c);
}

#[test]
fn axiom3_irreflexivity_does_not_grow_engine() {
    let mut e = DistinctionEngine::new();
    let d_count_before = e.distinction_count();
    let _ = e.synthesize(e.d0(), e.d0());
    let _ = e.synthesize(e.d1(), e.d1());
    assert_eq!(e.distinction_count(), d_count_before);
}

#[test]
fn axiom4_content_addressing_identical_chains_identical_ids() {
    let make_chain = |e: &mut DistinctionEngine| -> Vec<Distinction> {
        let mut chain = Vec::with_capacity(10);
        chain.push(e.d0());
        chain.push(e.d1());
        let c = e.synthesize(e.d0(), e.d1());
        chain.push(c);
        for i in 3..10 {
            let next = e.synthesize(chain[i - 1], chain[i - 2]);
            chain.push(next);
        }
        chain
    };
    let mut e1 = DistinctionEngine::new();
    let mut e2 = DistinctionEngine::new();
    let c1 = make_chain(&mut e1);
    let c2 = make_chain(&mut e2);
    for (a, b) in c1.iter().zip(c2.iter()) {
        assert_eq!(a.as_bytes(), b.as_bytes());
    }
    assert_eq!(e1.distinction_count(), e2.distinction_count());
    assert_eq!(e1.relationship_count(), e2.relationship_count());
}

#[test]
fn law7_saturation_repeated_synth_adds_nothing() {
    let mut e = DistinctionEngine::new();
    let _ = e.synthesize(e.d0(), e.d1());
    let count_after_first = e.distinction_count();
    let rel_after_first = e.relationship_count();
    let d0_deg = e.degree(e.d0());
    let d1_deg = e.degree(e.d1());

    for _ in 0..1000 {
        let _ = e.synthesize(e.d0(), e.d1());
    }

    assert_eq!(e.distinction_count(), count_after_first);
    assert_eq!(e.relationship_count(), rel_after_first);
    assert_eq!(e.degree(e.d0()), d0_deg);
    assert_eq!(e.degree(e.d1()), d1_deg);
}

#[test]
fn law5_every_nonprimordial_has_two_parents() {
    let mut e = DistinctionEngine::new();
    let c = e.synthesize(e.d0(), e.d1());
    let (p1, p2) = e.parents_of(c).expect("non-primordial has parents (invariant)");
    assert_ne!(p1, p2);
    assert!(p1.as_bytes() <= p2.as_bytes());
    assert!((p1 == e.d0() && p2 == e.d1()) || (p1 == e.d1() && p2 == e.d0()));
}

#[test]
fn law6_r_equals_2d_minus_3_at_small_scale() {
    let mut e = DistinctionEngine::new();
    let mut prev = e.d0();
    let mut cur = e.d1();
    for _ in 0..200 {
        let next = e.synthesize(cur, prev);
        prev = cur;
        cur = next;
    }
    e.check_structural_invariant().expect("r = 2d − 3 holds (invariant)");
    assert_eq!(e.distinction_count(), 202);
    assert_eq!(e.relationship_count(), 401);
}

#[test]
fn degree_increases_with_participations() {
    let mut e = DistinctionEngine::new();
    let d0_deg_initial = e.degree(e.d0());
    let _c = e.synthesize(e.d0(), e.d1());
    assert_eq!(e.degree(e.d0()), d0_deg_initial + 1);
}

#[test]
fn new_child_degree_is_two() {
    let mut e = DistinctionEngine::new();
    let c = e.synthesize(e.d0(), e.d1());
    assert_eq!(e.degree(c), 2);
}

#[test]
fn degree_of_unregistered_distinction_is_zero() {
    let e = DistinctionEngine::new();
    let foreign = Distinction::from_bytes_unchecked([0xCC; 16]);
    assert_eq!(e.degree(foreign), 0);
}

#[test]
fn engine_is_send_sync() {
    assert_send_sync::<DistinctionEngine>();
}

#[test]
fn invariant_error_message_includes_counts() {
    let err = InvariantError::BinaryParentageMismatch { all_distinctions: 5, parents_of_plus_two: 7 };
    let msg = err.to_display_string();
    assert!(msg.contains("5"));
    assert!(msg.contains("7"));
}

#[test]
fn invariant_error_message_is_exact() {
    let err = InvariantError::BinaryParentageMismatch { all_distinctions: 12, parents_of_plus_two: 305 };
    assert_eq!(
        err.to_display_string(),
        "binary parentage violation: all_distinctions.len()=12, parents_of.len()+2=305"
    );
}

#[test]
fn synthesize_novel_returns_novel_for_fresh_pair() {
    let mut e = DistinctionEngine::new();
    let outcome = e.synthesize_novel(e.d0(), e.d1());
    assert!(outcome.is_novel(), "first synthesis on fresh (d0, d1) must be Novel, got {outcome:?}");
    assert!(matches!(outcome, SynthesisOutcome::Novel(_)));
}

#[test]
fn synthesize_novel_returns_existing_on_repeat() {
    let mut e = DistinctionEngine::new();
    let first = e.synthesize_novel(e.d0(), e.d1());
    let second = e.synthesize_novel(e.d0(), e.d1());
    assert!(first.is_novel(), "first call must be Novel");
    assert!(!second.is_novel(), "repeat call must be Existing, got {second:?}");
    assert!(matches!(second, SynthesisOutcome::Existing(_)));
    assert_eq!(first.distinction(), second.distinction());
}

#[test]
fn synthesize_novel_axiom_3_returns_existing() {
    let mut e = DistinctionEngine::new();
    assert_eq!(e.synthesize_novel(e.d0(), e.d0()), SynthesisOutcome::Existing(e.d0()));
    assert_eq!(e.synthesize_novel(e.d1(), e.d1()), SynthesisOutcome::Existing(e.d1()));

    let c = e.synthesize(e.d0(), e.d1());
    assert_eq!(e.synthesize_novel(c, c), SynthesisOutcome::Existing(c));
}

#[test]
fn synthesize_novel_matches_synthesize_distinction() {
    let mut e_a = DistinctionEngine::new();
    let mut e_b = DistinctionEngine::new();
    let c_a = e_a.synthesize(e_a.d0(), e_a.d1());
    let c_b = e_b.synthesize(e_b.d0(), e_b.d1());
    let pairs_a = vec![(e_a.d0(), e_a.d1()), (e_a.d1(), e_a.d0()), (e_a.d0(), c_a), (c_a, c_a)];
    let pairs_b = vec![(e_b.d0(), e_b.d1()), (e_b.d1(), e_b.d0()), (e_b.d0(), c_b), (c_b, c_b)];
    for ((a1, b1), (a2, b2)) in pairs_a.into_iter().zip(pairs_b) {
        let outcome = e_a.synthesize_novel(a1, b1);
        let direct = e_b.synthesize(a2, b2);
        assert_eq!(outcome.distinction(), direct);
    }
}

#[test]
fn synthesis_outcome_into_distinction_unwraps_either_variant() {
    let d = Distinction::from_bytes_unchecked([7u8; 16]);
    assert_eq!(SynthesisOutcome::Novel(d).into_distinction(), d);
    assert_eq!(SynthesisOutcome::Existing(d).into_distinction(), d);
}

#[test]
fn verify_accepts_registered_and_rejects_foreign_bytes() {
    let mut e = DistinctionEngine::new();
    let c = e.synthesize(e.d0(), e.d1());
    let raw = RawDistinctionId::from_hex(&c.to_hex()).expect("hex parses");
    let verified = e.verify(raw).expect("this engine has these bytes");
    assert_eq!(verified.as_bytes(), c.as_bytes());
    let foreign = RawDistinctionId::from_bytes([0xCC; 16]);
    assert_eq!(e.verify(foreign), Err(VerifyError::ForeignBytes));
}

#[test]
fn first_synthesis_child_bytes_are_sha256_prefix_of_parents() {
    // d0 = [0; 16], d1 = [1, 0, ..., 0]; d0 < d1, so the child is
    // SHA-256(d0 || d1)[..16].
    let mut e = DistinctionEngine::new();
    let c = e.synthesize(e.d0(), e.d1());
    assert_eq!(c.to_hex(), "6cc4f0e930b34481d03a4134331852ea");
}

#[test]
fn snapshots_cover_every_node_once() {
    let mut e = DistinctionEngine::new();
    let c = e.synthesize(e.d0(), e.d1());
    let cc = e.synthesize(c, e.d0());
    let mut ids: Vec<[u8; 16]> = e.snapshot_distinctions().iter().map(|d| *d.as_bytes()).collect();
    ids.sort();
    let mut expected = vec![*e.d0().as_bytes(), *e.d1().as_bytes(), *c.as_bytes(), *cc.as_bytes()];
    expected.sort();
    assert_eq!(ids, expected);
    let par = e.snapshot_parentage();
    assert_eq!(par.len(), 2);
    for (child, parents) in par {
        assert_eq!(e.parents_of(child), Some(parents));
    }
    assert!(e.has(cc));
    assert!(!e.has(Distinction::from_bytes_unchecked([0xEE; 16])));
}

#[test]
fn engine_debug_string_summarizes_counts() {
    let mut e = DistinctionEngine::new();
    assert_eq!(e.to_debug_string(), "DistinctionEngine { distinction_count: 2, relationship_count: 1, .. }");
    let (d0, d1) = (e.d0(), e.d1());
    e.synthesize(d0, d1);
    assert_eq!(e.to_debug_string(), "DistinctionEngine { distinction_count: 3, relationship_count: 3, .. }");
}

#[test]
fn verify_error_message() {
    assert_eq!(VerifyError::ForeignBytes.to_display_string(), "distinction bytes not registered in this engine");
}
