use koru_lambda_core::{build_children_index, replay_topological, ByteMapping, Distinction, DistinctionEngine, ParentPair, ReplayError};

type SourceFixture = (DistinctionEngine, Vec<(Distinction, ParentPair)>);

fn build_source() -> SourceFixture {
    let mut e = DistinctionEngine::new();
    let _ = e.synthesize(e.d0(), e.d1());
    let _ = ByteMapping::map_byte_to_distinction(0x42, &mut e);
    let _ = ByteMapping::map_byte_to_distinction(0xAB, &mut e);
    let snap = e.snapshot_parentage();
    (e, snap)
}

#[test]
fn replay_natural_order_byte_identical() {
    let (source, snap) = build_source();
    let replayed = replay_topological(snap).expect("natural-order replay succeeds (invariant)");
    assert_eq!(replayed.distinction_count(), source.distinction_count());
    assert_eq!(replayed.relationship_count(), source.relationship_count());
    for (child, expected_parents) in source.snapshot_parentage() {
        let replayed_parents = replayed.parents_of(child).expect("child registered in replay (invariant)");
        assert_eq!(replayed_parents, expected_parents);
    }
}

#[test]
fn replay_shuffled_order_byte_identical() {
    let (source, mut snap) = build_source();
    snap.reverse();
    let replayed = replay_topological(snap).expect("shuffled-order replay succeeds (invariant)");
    assert_eq!(replayed.distinction_count(), source.distinction_count());
    assert_eq!(replayed.relationship_count(), source.relationship_count());
    replayed.check_structural_invariant().expect("invariant holds after replay (invariant)");
    for (child, expected_parents) in source.snapshot_parentage() {
        let replayed_parents = replayed.parents_of(child).expect("child registered in replay (invariant)");
        assert_eq!(replayed_parents, expected_parents);
    }
}

#[test]
fn replay_arbitrary_permutation_byte_identical() {
    let (source, mut snap) = build_source();
    let third = snap.len() / 3;
    snap.rotate_left(third);
    snap[..third].reverse();
    let replayed = replay_topological(snap).expect("permuted-order replay succeeds (invariant)");
    assert_eq!(replayed.distinction_count(), source.distinction_count());
    for (child, expected_parents) in source.snapshot_parentage() {
        let replayed_parents = replayed.parents_of(child).expect("child registered in replay (invariant)");
        assert_eq!(replayed_parents, expected_parents);
    }
}

#[test]
fn replay_empty_input_yields_empty_engine() {
    let replayed = replay_topological(Vec::<(Distinction, ParentPair)>::new()).expect("empty replay succeeds (invariant)");
    assert_eq!(replayed.distinction_count(), 2);
    assert_eq!(replayed.relationship_count(), 1);
}

#[test]
fn log_replay_invariant_byte_identical_state() {
    let (source, snap) = build_source();
    let replayed = replay_topological(snap).expect("log-replay succeeds (invariant)");

    let mut source_ids: Vec<[u8; 16]> = source.snapshot_distinctions().iter().map(|d| *d.as_bytes()).collect();
    let mut replayed_ids: Vec<[u8; 16]> = replayed.snapshot_distinctions().iter().map(|d| *d.as_bytes()).collect();
    source_ids.sort();
    replayed_ids.sort();
    assert_eq!(source_ids, replayed_ids);

    let mut source_par = source.snapshot_parentage();
    let mut replayed_par = replayed.snapshot_parentage();
    source_par.sort_by_key(|(c, _)| *c.as_bytes());
    replayed_par.sort_by_key(|(c, _)| *c.as_bytes());
    assert_eq!(source_par, replayed_par);

    for d in source.snapshot_distinctions() {
        assert_eq!(source.degree(d), replayed.degree(d), "degree mismatch for {d:?}");
    }
}

#[test]
fn replay_returns_mismatch_on_tampered_parentage() {
    let (e, snap) = build_source();
    let target_parents = snap
        .iter()
        .find_map(|(_, (a, b))| {
            if (*a == e.d0() || *a == e.d1()) && (*b == e.d0() || *b == e.d1()) {
                Some((*a, *b))
            } else {
                None
            }
        })
        .expect("source must contain a primordial-rooted entry (invariant)");

    let mut tampered: Vec<(Distinction, ParentPair)> =
        snap.into_iter().filter(|(_, parents)| *parents != target_parents).collect();
    tampered.push((e.d0(), target_parents));

    let err = replay_topological(tampered).err().expect("tampered parentage must reject (invariant)");
    assert!(matches!(err, ReplayError::Mismatch { .. }));
}

#[test]
fn replay_returns_unreachable_on_partial_cycle() {
    let mut e = DistinctionEngine::new();
    let c1 = e.synthesize(e.d0(), e.d1());
    let c2 = e.synthesize(c1, e.d0());
    let c3 = e.synthesize(c2, e.d1());
    let snap = e.snapshot_parentage();
    assert_eq!(snap.len(), 3);
    assert!(snap.iter().any(|(child, _)| *child == c2));

    let pruned: Vec<(Distinction, ParentPair)> = snap.into_iter().filter(|(child, _)| *child != c2).collect();
    assert_eq!(pruned.len(), 2);

    let err = replay_topological(pruned).err().expect("orphan-parent parentage must reject (invariant)");
    match err {
        ReplayError::Unreachable(count) => {
            assert_eq!(count, 1, "exactly one entry (c3) is unreachable");
        },
        other => panic!("expected Unreachable, got {other:?}"),
    }
    let _ = c3;
}

#[test]
fn replay_returns_missing_primordial_when_no_root_in_d0_d1() {
    let fake_a = Distinction::from_bytes_unchecked([0xAA; 16]);
    let fake_b = Distinction::from_bytes_unchecked([0xBB; 16]);
    let fake_child = Distinction::from_bytes_unchecked([0xCC; 16]);
    let parentage = vec![(fake_child, (fake_a, fake_b))];

    let err = replay_topological(parentage).err().expect("rootless parentage must reject (invariant)");
    assert_eq!(err, ReplayError::MissingPrimordial);
}

#[test]
fn build_children_index_inverts_parents_of() {
    let (e, snap) = build_source();
    let index = build_children_index(&snap);
    let lookup = |d: &Distinction| index.iter().find(|(p, _)| p == d).map(|(_, cs)| cs);

    for (child, (a, b)) in &snap {
        assert!(lookup(a).is_some_and(|children| children.contains(child)), "child {child:?} missing from index[{a:?}]");
        assert!(lookup(b).is_some_and(|children| children.contains(child)), "child {child:?} missing from index[{b:?}]");
    }

    let d0_children = lookup(&e.d0()).expect("d0 has children (invariant)");
    assert!(!d0_children.is_empty());
}

#[test]
fn build_children_index_empty_input_empty_output() {
    let index = build_children_index(&[]);
    assert!(index.is_empty());
}

#[test]
fn build_children_index_lists_each_parent_once_in_first_seen_order() {
    let mut e = DistinctionEngine::new();
    let c1 = e.synthesize(e.d0(), e.d1());
    let c2 = e.synthesize(c1, e.d0());
    let snap = vec![(c1, e.parents_of(c1).unwrap()), (c2, e.parents_of(c2).unwrap())];
    let index = build_children_index(&snap);
    let parents: Vec<Distinction> = index.iter().map(|(p, _)| *p).collect();
    let (a1, b1) = e.parents_of(c1).unwrap();
    let (a2, b2) = e.parents_of(c2).unwrap();
    let mut expected = vec![a1, b1];
    for p in [a2, b2] {
        if !expected.contains(&p) {
            expected.push(p);
        }
    }
    assert_eq!(parents, expected);
    let d0_children = &index.iter().find(|(p, _)| *p == e.d0()).unwrap().1;
    assert_eq!(d0_children, &vec![c1, c2]);
}

#[test]
fn replay_error_messages_are_exact() {
    assert_eq!(
        ReplayError::Unreachable(3).to_display_string(),
        "corrupted parentage: 3 entries unresolved (cycle or missing intermediate)"
    );
    assert_eq!(
        ReplayError::MissingPrimordial.to_display_string(),
        "no parentage entry roots in primordials: input cannot bootstrap from d₀/d₁"
    );
    let d = Distinction::from_bytes_unchecked([0u8; 16]);
    let x = Distinction::from_bytes_unchecked([0xFFu8; 16]);
    assert_eq!(
        ReplayError::Mismatch { child: d, expected: d, actual: x }.to_display_string(),
        "content-address mismatch: expected Distinction(00000000000000000000000000000000), got Distinction(ffffffffffffffffffffffffffffffff)"
    );
}
