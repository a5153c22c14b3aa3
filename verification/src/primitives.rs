//! How values lift into the substrate: the [`Canonicalizable`] trait and
//! the byte fold [`ByteMapping`].

use vstd::prelude::*;
use crate::distinction::{Distinction, spec_d0, spec_d1, child_of};
use crate::engine::{DistinctionEngine, EngineView, synth_view, view_wf, view_extends, lemma_synth_view};

verus! {

broadcast use crate::distinction::group_distinction;

/// Lift a value into its canonical chain of distinctions in an engine,
/// using only `synthesize` steps, and return the chain's tip.
pub trait Canonicalizable: Sized {
    /// The engine state and tip that folding `self` into state `v` yields.
    spec fn spec_canonical(&self, v: EngineView) -> (EngineView, Distinction);

    /// Fold `self` into `engine`, returning the tip distinction.
    fn to_canonical_structure(self, engine: &mut DistinctionEngine) -> (d: Distinction)
        requires
            old(engine).wf(),
        ensures
            final(engine).wf(),
            (final(engine)@, d) == self.spec_canonical(old(engine)@),
            final(engine)@.contains_key(d@),
            view_extends(old(engine)@, final(engine)@),
    ;
}

/// One synthesis step on an abstract state: the new state and the child.
pub open spec fn synth_step(v: EngineView, a: Distinction, b: Distinction) -> (EngineView, Distinction) {
    (synth_view(v, a, b), child_of(a, b))
}

/// Bit `i` (0 = least significant) of a byte.
pub open spec fn bit_of(byte: u8, i: nat) -> u8 {
    (byte >> i) & 1
}

/// The state and accumulator after the seed step and the first `n`
/// bit-steps of folding `byte` into `v`. A bit-step synthesizes the
/// accumulator with `d0` then `d1` for a 0 bit, `d1` then `d0` for a 1 bit.
pub open spec fn byte_fold(v: EngineView, byte: u8, n: nat) -> (EngineView, Distinction)
    decreases n,
{
    if n == 0 {
        synth_step(v, spec_d0(), spec_d1())
    } else {
        let (v1, acc) = byte_fold(v, byte, (n - 1) as nat);
        let (x, y) = if bit_of(byte, (n - 1) as nat) == 0 {
            (spec_d0(), spec_d1())
        } else {
            (spec_d1(), spec_d0())
        };
        let (v2, a2) = synth_step(v1, acc, x);
        synth_step(v2, a2, y)
    }
}

/// The fold's tip does not depend on the engine state it runs on.
pub proof fn lemma_byte_fold_tip(v: EngineView, w: EngineView, byte: u8, n: nat)
    ensures
        byte_fold(v, byte, n).1 == byte_fold(w, byte, n).1,
    decreases n,
{
    if n > 0 {
        lemma_byte_fold_tip(v, w, byte, (n - 1) as nat);
    }
}

/// Byte to distinction folding through the calling engine. Empty struct,
/// namespace only.
pub struct ByteMapping;

impl ByteMapping {
    /// Number of bit-steps per byte fold.
    pub const BITS_PER_BYTE: usize = 8;

    /// Fold a byte through `engine` into a single tip: one seed synthesis
    /// `d0 ⊗ d1`, then per bit (least significant first) two syntheses
    /// whose order the bit decides. Every intermediate is registered.
    pub fn map_byte_to_distinction(byte: u8, engine: &mut DistinctionEngine) -> (d: Distinction)
        requires
            old(engine).wf(),
        ensures
            final(engine).wf(),
            (final(engine)@, d) == byte_fold(old(engine)@, byte, 8),
            final(engine)@.contains_key(d@),
            view_extends(old(engine)@, final(engine)@),
    {
        proof {
            engine.lemma_wf_view();
        }
        let d0 = engine.d0();
        let d1 = engine.d1();
        let ghost v0 = engine@;
        let mut acc = engine.synthesize(d0, d1);
        proof {
            lemma_synth_view(v0, d0, d1);
        }
        let mut bit_index: usize = 0;
        while bit_index < Self::BITS_PER_BYTE
            invariant
                engine.wf(),
                0 <= bit_index <= 8,
                (engine@, acc) == byte_fold(v0, byte, bit_index as nat),
                engine@.contains_key(acc@),
                view_extends(v0, engine@),
                d0 == spec_d0(),
                d1 == spec_d1(),
            decreases 8 - bit_index,
        {
            let bit_value = (byte >> bit_index) & 1;
            let ghost v1 = engine@;
            proof {
                engine.lemma_wf_view();
                assert(bit_value == bit_of(byte, bit_index as nat));
            }
            if bit_value == 0 {
                let a2 = engine.synthesize(acc, d0);
                proof {
                    lemma_synth_view(v1, acc, d0);
                    lemma_synth_view(synth_view(v1, acc, d0), a2, d1);
                }
                acc = engine.synthesize(a2, d1);
            } else {
                let a2 = engine.synthesize(acc, d1);
                proof {
                    lemma_synth_view(v1, acc, d1);
                    lemma_synth_view(synth_view(v1, acc, d1), a2, d0);
                }
                acc = engine.synthesize(a2, d0);
            }
            bit_index = bit_index + 1;
        }
        acc
    }
}

impl Canonicalizable for u8 {
    open spec fn spec_canonical(&self, v: EngineView) -> (EngineView, Distinction) {
        byte_fold(v, *self, 8)
    }

    fn to_canonical_structure(self, engine: &mut DistinctionEngine) -> (d: Distinction) {
        ByteMapping::map_byte_to_distinction(self, engine)
    }
}

} // verus!
