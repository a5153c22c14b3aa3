use koru_lambda_core::projection::{
    signal_identity, type_id_of, Boundary, CanonicalBytes, Direction, ReadOnlyEngine, RestoreError,
};
use koru_lambda_core::{Adjacency, Degree, Distinction, DistinctionEngine, HopDistance, ParentPair, Projection, Signal};
use std::collections::BTreeMap;

fn narrow_lifetime<'long: 'short, 'short, S: Signal>(p: Projection<'long, S>) -> Projection<'short, S> {
    p
}

#[test]
fn projection_is_covariant_in_engine_lifetime() {
    let e = DistinctionEngine::new();
    let proj = e.project(e.d0()).direction(Direction::Upstream).hops(0).signal(Adjacency).materialize();
    let narrowed = narrow_lifetime(proj);
    assert!(narrowed.contains(&e.d0()));
}

#[test]
fn type_id_constants_match_runtime_sha() {
    assert_eq!(type_id_of::<Adjacency>(), signal_identity(&Adjacency));
    assert_eq!(type_id_of::<Degree>(), signal_identity(&Degree));
    assert_eq!(type_id_of::<HopDistance>(), signal_identity(&HopDistance));
}

#[test]
fn projection_id_is_deterministic_across_engines() {
    let mut e1 = DistinctionEngine::new();
    let mut e2 = DistinctionEngine::new();
    let c1 = e1.synthesize(e1.d0(), e1.d1());
    let c2 = e2.synthesize(e2.d0(), e2.d1());
    assert_eq!(c1, c2);
    let p1 = e1.project(c1).direction(Direction::Upstream).hops(2).signal(Adjacency).materialize();
    let p2 = e2.project(c2).direction(Direction::Upstream).hops(2).signal(Adjacency).materialize();
    assert_eq!(p1.projection_id(), p2.projection_id());
}

#[test]
fn canonical_bytes_deterministic_across_engines() {
    let mut e1 = DistinctionEngine::new();
    let mut e2 = DistinctionEngine::new();
    let c1 = e1.synthesize(e1.d0(), e1.d1());
    let c2 = e2.synthesize(e2.d0(), e2.d1());
    let p1 = e1.project(c1).direction(Direction::Upstream).hops(2).signal(Adjacency).materialize();
    let p2 = e2.project(c2).direction(Direction::Upstream).hops(2).signal(Adjacency).materialize();
    assert_eq!(p1.canonical_bytes(), p2.canonical_bytes());
}

#[test]
fn upstream_cone_contains_root_and_parents() {
    let mut e = DistinctionEngine::new();
    let c = e.synthesize(e.d0(), e.d1());
    let cc = e.synthesize(c, e.d0());
    let proj = e.project(cc).direction(Direction::Upstream).saturated().signal(Adjacency).materialize();
    assert!(proj.contains(&cc));
    assert!(proj.contains(&c));
    assert!(proj.contains(&e.d0()));
}

#[test]
fn downstream_cone_walks_children() {
    let mut e = DistinctionEngine::new();
    let c1 = e.synthesize(e.d0(), e.d1());
    let c2 = e.synthesize(c1, e.d0());
    let proj = e.project(e.d0()).direction(Direction::Downstream).saturated().signal(Adjacency).materialize();
    assert!(proj.contains(&e.d0()));
    assert!(proj.contains(&c1));
    assert!(proj.contains(&c2));
}

#[test]
fn hops_zero_returns_just_root() {
    let mut e = DistinctionEngine::new();
    let c = e.synthesize(e.d0(), e.d1());
    let proj = e.project(c).direction(Direction::Upstream).hops(0).signal(Adjacency).materialize();
    assert!(proj.contains(&c));
    assert_eq!(proj.output().len(), 1);
}

#[test]
fn wire_format_header_shape() {
    let mut e = DistinctionEngine::new();
    let c = e.synthesize(e.d0(), e.d1());
    let proj = e.project(c).direction(Direction::Downstream).saturated().signal(Adjacency).materialize();
    let bytes = proj.canonical_bytes();
    assert!(bytes.len() >= 55);
    assert_eq!(&bytes[0..4], b"KPRJ");
    assert_eq!(bytes[4], 0x02);
    assert_eq!(&bytes[5..21], c.as_bytes());
    assert_eq!(bytes[21], 0x01);
    assert_eq!(bytes[30], 0x01);
}

#[test]
fn signal_mismatch_detected_on_restore() {
    let mut e = DistinctionEngine::new();
    let c = e.synthesize(e.d0(), e.d1());
    let proj = e.project(c).direction(Direction::Upstream).hops(1).signal(Adjacency).materialize();
    let bytes = proj.canonical_bytes();
    let err = e.restore_projection::<Degree>(&bytes, Degree).err().expect("restore under wrong signal must fail");
    assert!(matches!(err, RestoreError::SignalMismatch { .. }));
}

#[test]
fn malformed_bytes_rejected() {
    let e = DistinctionEngine::new();
    let bad: [u8; 4] = [0, 0, 0, 0];
    let err = e.restore_projection::<Adjacency>(&bad, Adjacency).err().expect("restore on malformed bytes must fail");
    assert!(matches!(err, RestoreError::Malformed { .. }));
}

#[test]
fn canonicalbytes_usize_is_8_bytes_le() {
    let v: usize = 0x0102_0304_0506_0708;
    let bytes = v.canonical_bytes();
    assert_eq!(bytes.len(), 8);
    assert_eq!(bytes, vec![0x08, 0x07, 0x06, 0x05, 0x04, 0x03, 0x02, 0x01]);
}

#[test]
fn canonicalbytes_bool_is_1_byte() {
    assert_eq!(true.canonical_bytes(), vec![1u8]);
    assert_eq!(false.canonical_bytes(), vec![0u8]);
}

#[test]
fn canonicalbytes_option_parentpair_none_is_1_byte() {
    let none: Option<ParentPair> = None;
    assert_eq!(none.canonical_bytes(), vec![0u8]);
}

#[test]
fn read_only_engine_dyn_object_dispatches() {
    let e = DistinctionEngine::new();
    let engine_dyn: &(dyn ReadOnlyEngine + Send + Sync) = &e;
    assert_eq!(engine_dyn.distinction_count(), 2);
    assert!(engine_dyn.has(e.d0()));
}

#[test]
fn hop_distance_materializes_correct_per_node_hops() {
    let mut e = DistinctionEngine::new();
    let c = e.synthesize(e.d0(), e.d1());
    let cc = e.synthesize(c, e.d0());
    let proj = e.project(cc).direction(Direction::Upstream).saturated().signal(HopDistance).materialize();
    let map: BTreeMap<Distinction, usize> = proj.output().iter().iter().map(|(d, v)| (*d, *v)).collect();
    assert_eq!(map.get(&cc).copied(), Some(0));
    assert_eq!(map.get(&c).copied(), Some(1));
    assert_eq!(map.get(&e.d0()).copied(), Some(1));
    assert_eq!(map.get(&e.d1()).copied(), Some(2));
}

#[test]
fn hop_distance_bounded_by_hops_boundary() {
    let mut e = DistinctionEngine::new();
    let c = e.synthesize(e.d0(), e.d1());
    let cc = e.synthesize(c, e.d0());
    let proj = e.project(cc).direction(Direction::Upstream).hops(1).signal(HopDistance).materialize();
    assert!(proj.contains(&cc));
    assert!(proj.contains(&c));
    assert!(proj.contains(&e.d0()));
    assert!(!proj.contains(&e.d1()));
}

#[test]
fn restore_round_trips_on_the_producing_engine() {
    let mut e = DistinctionEngine::new();
    let c = e.synthesize(e.d0(), e.d1());
    let cc = e.synthesize(c, e.d0());
    let _ = e.synthesize(cc, e.d1());
    for dir in [Direction::Upstream, Direction::Downstream, Direction::Undirected] {
        for b in [Boundary::Hops(0), Boundary::Hops(1), Boundary::Hops(7), Boundary::Saturated] {
            let proj = e.project(c).direction(dir).boundary(b).signal(Degree).materialize();
            let bytes = proj.canonical_bytes();
            let restored = e.restore_projection(&bytes, Degree).ok().expect("restores");
            assert_eq!(restored.canonical_bytes(), bytes);
            assert_eq!(restored.output().iter(), proj.output().iter());
        }
    }
}

#[test]
fn restore_rejects_foreign_engine_and_bad_tags() {
    let mut e = DistinctionEngine::new();
    let c = e.synthesize(e.d0(), e.d1());
    let proj = e.project(c).direction(Direction::Upstream).saturated().signal(Adjacency).materialize();
    let bytes = proj.canonical_bytes();

    let fresh = DistinctionEngine::new();
    assert!(matches!(fresh.restore_projection(&bytes, Adjacency).err(), Some(RestoreError::ForeignEngine)));

    let mut bad_magic = bytes.clone();
    bad_magic[0] = b'X';
    assert!(matches!(
        e.restore_projection(&bad_magic, Adjacency).err(),
        Some(RestoreError::Malformed { offset: 0, .. })
    ));
    let mut bad_version = bytes.clone();
    bad_version[4] = 9;
    assert!(matches!(
        e.restore_projection(&bad_version, Adjacency).err(),
        Some(RestoreError::Malformed { offset: 4, .. })
    ));
    let mut bad_boundary = bytes.clone();
    bad_boundary[21] = 7;
    assert!(matches!(
        e.restore_projection(&bad_boundary, Adjacency).err(),
        Some(RestoreError::Malformed { offset: 21, .. })
    ));
    let mut bad_direction = bytes.clone();
    bad_direction[30] = 3;
    assert!(matches!(
        e.restore_projection(&bad_direction, Adjacency).err(),
        Some(RestoreError::Malformed { offset: 30, .. })
    ));
    let mut tampered_entry = bytes.clone();
    let last = tampered_entry.len() - 1;
    tampered_entry[last] ^= 1;
    assert!(matches!(e.restore_projection(&tampered_entry, Adjacency).err(), Some(RestoreError::ForeignEngine)));
}

#[test]
fn projection_spec_and_aggregate_report_materialized_values() {
    let mut e = DistinctionEngine::new();
    let c = e.synthesize(e.d0(), e.d1());
    let proj = e.project(c).direction(Direction::Undirected).hops(3).signal(Degree).materialize();
    let spec = proj.spec();
    assert_eq!(spec.root, c);
    assert_eq!(spec.direction, Direction::Undirected);
    assert_eq!(spec.boundary, Boundary::Hops(3));
    assert!(proj.aggregate().is_none());
    let entries = proj.output().iter();
    for w in entries.windows(2) {
        assert!(w[0].0.as_bytes() < w[1].0.as_bytes());
    }
    for (d, deg) in entries {
        assert_eq!(*deg, e.degree(*d));
    }
    assert!(!proj.output().is_empty());
}

#[test]
fn foreign_root_yields_empty_projection() {
    let e = DistinctionEngine::new();
    let foreign = Distinction::from_bytes_unchecked([0xCC; 16]);
    let proj = e.project(foreign).direction(Direction::Upstream).saturated().signal(Adjacency).materialize();
    assert!(proj.output().is_empty());
    assert!(!proj.contains(&foreign));
}

#[test]
fn undirected_cone_reaches_siblings() {
    let mut e = DistinctionEngine::new();
    let c1 = e.synthesize(e.d0(), e.d1());
    let c2 = e.synthesize(c1, e.d0());
    let c3 = e.synthesize(c1, e.d1());
    let proj = e.project(c2).direction(Direction::Undirected).hops(2).signal(HopDistance).materialize();
    let map: BTreeMap<Distinction, usize> = proj.output().iter().iter().map(|(d, v)| (*d, *v)).collect();
    assert_eq!(map.get(&c2).copied(), Some(0));
    assert_eq!(map.get(&c1).copied(), Some(1));
    assert_eq!(map.get(&e.d0()).copied(), Some(1));
    assert_eq!(map.get(&c3).copied(), Some(2));
    assert_eq!(map.get(&e.d1()).copied(), Some(2));
}

#[test]
fn project_arc_matches_project() {
    let mut e = DistinctionEngine::new();
    let c = e.synthesize(e.d0(), e.d1());
    let shared = std::sync::Arc::new(e);
    let via_arc = shared.project_arc(c).direction(Direction::Upstream).saturated().signal(Adjacency).materialize();
    let direct = shared.project(c).direction(Direction::Upstream).saturated().signal(Adjacency).materialize();
    assert_eq!(via_arc.canonical_bytes(), direct.canonical_bytes());
    assert!(via_arc.contains(&c));
    assert_eq!(via_arc.output().len(), 3);
}

#[test]
fn projection_id_debug_string_is_hex() {
    let e = DistinctionEngine::new();
    let p = e.project(e.d0()).direction(Direction::Upstream).hops(0).signal(Adjacency).materialize();
    let id = p.projection_id();
    let s = id.to_debug_string();
    assert!(s.starts_with("ProjectionId("));
    assert!(s.ends_with(')'));
    let hex: String = id.as_bytes().iter().map(|b| format!("{b:02x}")).collect();
    assert_eq!(s, format!("ProjectionId({hex})"));
    assert_eq!(hex.len(), 64);
}

#[test]
fn restore_and_serialize_error_messages() {
    let e = RestoreError::Malformed { offset: 4, reason: "unsupported version" };
    assert_eq!(e.to_display_string(), "wire bytes malformed at offset 4: unsupported version");
    assert_eq!(
        RestoreError::ForeignEngine.to_display_string(),
        "distinction bytes not registered in restore engine (foreign entry)"
    );
    let mut expected = [0u8; 16];
    expected[0] = 1;
    expected[15] = 255;
    let actual = [7u8; 16];
    let e = RestoreError::SignalMismatch { expected, actual };
    assert_eq!(e.to_display_string(), format!("signal type mismatch: expected {expected:?}, got {actual:?}"));
    let e = RestoreError::IntegerOverflow { field: "entry_count", value: 9 };
    assert_eq!(e.to_display_string(), "wire entry_count value 9 exceeds usize::MAX on this target");
    let d = Distinction::from_bytes_unchecked([0xAB; 16]);
    let e = koru_lambda_core::projection::SerializeError::EntryTooLarge { distinction: d, output_len: 5 };
    assert_eq!(
        e.to_display_string(),
        format!("entry for distinction Distinction({}) exceeds u32::MAX bytes: 5", d.to_hex())
    );
}
