use koru_lambda_core::{synthesize_causal_action, Distinction, DistinctionEngine, LocalCausalAgent};

struct TestLca {
    root: Distinction,
}

impl TestLca {
    fn new(root: Distinction) -> Self {
        Self { root }
    }
}

impl LocalCausalAgent for TestLca {
    type ActionData = u8;

    fn spec_root(&self) -> Distinction {
        self.root
    }

    fn get_current_root(&self) -> Distinction {
        self.root
    }

    fn update_local_root(&mut self, new_root: Distinction) {
        self.root = new_root;
    }
}

#[test]
fn lca_byte_identical_advancing_chains() {
    let mut engine = DistinctionEngine::new();
    let initial = engine.d0();
    let mut lca_a = TestLca::new(initial);
    let mut lca_b = TestLca::new(initial);
    let actions: Vec<u8> = vec![1, 2, 3, 5, 8, 13, 21, 42, 0xFF, 0x00];
    for &action in &actions {
        let root_a = lca_a.synthesize_action(action, &mut engine);
        let root_b = lca_b.synthesize_action(action, &mut engine);
        assert_eq!(root_a, root_b, "LCA chains diverged on action {action}; substrate broke determinism");
    }
    assert_eq!(lca_a.get_current_root(), lca_b.get_current_root());
}

#[test]
fn lca_monotonicity_previous_root_is_parent() {
    let mut engine = DistinctionEngine::new();
    let mut lca = TestLca::new(engine.d0());
    let old_root = lca.get_current_root();
    let new_root = lca.synthesize_action(42, &mut engine);
    assert_ne!(old_root, new_root, "advance produced same root");
    let (p1, p2) = engine.parents_of(new_root).expect("new root is non-primordial and has parents (invariant)");
    assert!(p1 == old_root || p2 == old_root, "previous root must be one of the new root's parents");
}

#[test]
fn lca_chain_records_in_engine_parents_of() {
    let mut engine = DistinctionEngine::new();
    let mut lca = TestLca::new(engine.d0());
    let mut chain = vec![lca.get_current_root()];
    for action in 1u8..=5 {
        let new_root = lca.synthesize_action(action, &mut engine);
        chain.push(new_root);
    }
    for window in chain.windows(2) {
        let prev = window[0];
        let curr = window[1];
        let (p1, p2) = engine.parents_of(curr).expect("non-primordial advance has parents (invariant)");
        assert!(p1 == prev || p2 == prev, "step {curr:?} did not record {prev:?} as a parent");
    }
}

#[test]
fn synthesize_causal_action_helper_matches_trait_default() {
    let mut engine = DistinctionEngine::new();
    let mut lca = TestLca::new(engine.d0());
    let root = lca.get_current_root();
    let via_helper = synthesize_causal_action(root, 42u8, &mut engine);
    let via_trait = lca.synthesize_action(42u8, &mut engine);
    assert_eq!(via_helper, via_trait);
}

#[test]
fn empty_action_sequence_leaves_root_unchanged() {
    let engine = DistinctionEngine::new();
    let lca = TestLca::new(engine.d0());
    assert_eq!(lca.get_current_root(), engine.d0());
    assert_eq!(engine.distinction_count(), 2);
}

#[test]
fn update_local_root_overrides_unconditionally() {
    let engine = DistinctionEngine::new();
    let mut lca = TestLca::new(engine.d0());
    lca.update_local_root(engine.d1());
    assert_eq!(lca.get_current_root(), engine.d1());
}
