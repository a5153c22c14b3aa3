//! [`LocalCausalAgent`]: the reference consumer pattern. An agent anchors
//! to a local root distinction and advances it by synthesizing the root
//! with the canonical form of each action.

use vstd::prelude::*;
use crate::distinction::{Distinction, child_of};
use crate::engine::{DistinctionEngine, EngineView, synth_view, view_extends, lemma_synth_view, synth_is_novel, has_parent};
use crate::primitives::Canonicalizable;

verus! {

broadcast use crate::distinction::group_distinction;

/// The state after advancing a root with an action on state `v`: the
/// action's fold, then the synthesis of the root with the action's tip.
pub open spec fn causal_step<A: Canonicalizable>(v: EngineView, root: Distinction, action: A) -> (
    EngineView,
    Distinction,
) {
    let (v1, tip) = action.spec_canonical(v);
    (synth_view(v1, root, tip), child_of(root, tip))
}

/// The Local Causal Agent contract: a local root, advanced forward by
/// causal syntheses with canonicalized action data.
pub trait LocalCausalAgent {
    /// The action data this agent processes.
    type ActionData: Canonicalizable;

    /// The agent's current local root, in spec.
    spec fn spec_root(&self) -> Distinction;

    /// The agent's current local root.
    fn get_current_root(&self) -> (d: Distinction)
        ensures
            d == self.spec_root(),
    ;

    /// Advance the local root to `new_root`.
    fn update_local_root(&mut self, new_root: Distinction)
        ensures
            final(self).spec_root() == new_root,
    ;

    /// Lift `action`, synthesize it with the current root, advance the
    /// root to the result and return it.
    fn synthesize_action(&mut self, action: Self::ActionData, engine: &mut DistinctionEngine) -> (d:
        Distinction)
        requires
            old(engine).wf(),
            old(engine)@.contains_key(old(self).spec_root()@),
        ensures
            final(engine).wf(),
            (final(engine)@, d) == causal_step(old(engine)@, old(self).spec_root(), action),
            final(self).spec_root() == d,
    {
        let root = self.get_current_root();
        let new_root = synthesize_causal_action(root, action, engine);
        self.update_local_root(new_root);
        new_root
    }
}

/// Lift `action` into the engine and synthesize it with `local_root`: the
/// next distinction of the causal chain.
pub fn synthesize_causal_action<A: Canonicalizable>(
    local_root: Distinction,
    action: A,
    engine: &mut DistinctionEngine,
) -> (d: Distinction)
    requires
        old(engine).wf(),
        old(engine)@.contains_key(local_root@),
    ensures
        final(engine).wf(),
        (final(engine)@, d) == causal_step(old(engine)@, local_root, action),
        final(engine)@.contains_key(d@),
        view_extends(old(engine)@, final(engine)@),
{
    let ghost v0 = engine@;
    let ghost spec_action = action;
    let action_d = action.to_canonical_structure(engine);
    proof {
        engine.lemma_wf_view();
        lemma_synth_view(engine@, local_root, action_d);
    }
    let d = engine.synthesize(local_root, action_d);
    proof {
        assert(view_extends(v0, engine@));
    }
    d
}

/// LCA monotonicity: when an advance creates a new distinction, the
/// previous root is one of the new root's recorded parents, so the causal
/// chain is recorded in the engine's parentage.
pub proof fn lemma_advance_records_root<A: Canonicalizable>(v: EngineView, root: Distinction, action: A)
    requires
        synth_is_novel(action.spec_canonical(v).0, root, action.spec_canonical(v).1),
    ensures
        causal_step(v, root, action).0.contains_key(causal_step(v, root, action).1@),
        has_parent(causal_step(v, root, action).0[causal_step(v, root, action).1@], root),
{
    let (v1, tip) = action.spec_canonical(v);
    crate::distinction::lemma_canonical_pair(root, tip);
}

} // verus!
