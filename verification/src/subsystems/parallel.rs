//! Batch synthesis: many parent-id pairs or many bytes lifted into an
//! engine in one call.

use vstd::prelude::*;
use vstd::utf8::encode_utf8;
use crate::distinction::{Distinction, child_of};
use crate::distinction_hex::spec_decode_hex_16;
use crate::engine::{DistinctionEngine, EngineView, synth_view, view_extends, lemma_synth_view};
use crate::primitives::{ByteMapping, byte_fold};

verus! {

broadcast use crate::distinction::group_distinction;

/// The registered distinction a hex id names in state `v`, if any.
pub open spec fn lookup_hex(v: EngineView, id: Seq<char>) -> Option<Distinction> {
    match spec_decode_hex_16(encode_utf8(id)) {
        Ok(b) => if v.contains_key(b) {
            Some(Distinction::mk(b))
        } else {
            None
        },
        Err(_) => None,
    }
}

/// The result of one pair on state `v`: both parents named and registered
/// give their child, anything else gives `None`.
pub open spec fn pair_step(v: EngineView, a: Seq<char>, b: Seq<char>) -> (EngineView, Option<Distinction>) {
    match (lookup_hex(v, a), lookup_hex(v, b)) {
        (Some(x), Some(y)) => (synth_view(v, x, y), Some(child_of(x, y))),
        _ => (v, None),
    }
}

/// The state and results after the first `n` pairs, in order: a pair may
/// name a child that an earlier pair created.
pub open spec fn pairs_run(v: EngineView, pairs: Seq<(Seq<char>, Seq<char>)>, n: nat) -> (EngineView, Seq<
    Option<Distinction>,
>)
    decreases n,
{
    if n == 0 {
        (v, Seq::empty())
    } else {
        let (v1, out) = pairs_run(v, pairs, (n - 1) as nat);
        let (v2, r) = pair_step(v1, pairs[n - 1].0, pairs[n - 1].1);
        (v2, out.push(r))
    }
}

/// The state and tips after folding the first `n` bytes, each on its own.
pub open spec fn bytes_run(v: EngineView, bytes: Seq<u8>, n: nat) -> (EngineView, Seq<Distinction>)
    decreases n,
{
    if n == 0 {
        (v, Seq::empty())
    } else {
        let (v1, out) = bytes_run(v, bytes, (n - 1) as nat);
        let (v2, d) = byte_fold(v1, bytes[n - 1], 8);
        (v2, out.push(d))
    }
}

/// The registered distinction `id` names, if any.
fn find_by_hex(engine: &DistinctionEngine, id: &String) -> (r: Option<Distinction>)
    requires
        engine.wf(),
    ensures
        r == lookup_hex(engine@, id@),
{
    match Distinction::from_hex(id.as_str()) {
        Ok(d) => {
            if engine.has(d) {
                Some(d)
            } else {
                None
            }
        },
        Err(_) => None,
    }
}

/// Synthesizes batches of pairs and canonicalizes batches of bytes.
pub struct BatchSynthesizer;

impl BatchSynthesizer {
    /// A batch synthesizer.
    pub fn new() -> BatchSynthesizer {
        BatchSynthesizer
    }

    /// Synthesize each `(parent_a_hex, parent_b_hex)` pair, in order: the
    /// child where both ids name registered distinctions, `None` where
    /// either is malformed or unregistered.
    pub fn synthesize_batch(&self, engine: &mut DistinctionEngine, pairs: Vec<(String, String)>) -> (r: Vec<
        Option<Distinction>,
    >)
        requires
            old(engine).wf(),
        ensures
            final(engine).wf(),
            (final(engine)@, r@) == pairs_run(
                old(engine)@,
                pairs@.map_values(|p: (String, String)| (p.0@, p.1@)),
                pairs@.len(),
            ),
            view_extends(old(engine)@, final(engine)@),
    {
        let ghost ps = pairs@.map_values(|p: (String, String)| (p.0@, p.1@));
        let ghost v0 = engine@;
        let mut out: Vec<Option<Distinction>> = Vec::new();
        let mut i: usize = 0;
        while i < pairs.len()
            invariant
                engine.wf(),
                i <= pairs@.len(),
                ps == pairs@.map_values(|p: (String, String)| (p.0@, p.1@)),
                (engine@, out@) == pairs_run(v0, ps, i as nat),
                view_extends(v0, engine@),
            decreases pairs@.len() - i,
        {
            let ghost v1 = engine@;
            let a = find_by_hex(engine, &pairs[i].0);
            let b = find_by_hex(engine, &pairs[i].1);
            proof {
                assert(ps[i as int] == (pairs@[i as int].0@, pairs@[i as int].1@));
            }
            match (a, b) {
                (Some(x), Some(y)) => {
                    proof {
                        engine.lemma_wf_view();
                        lemma_synth_view(engine@, x, y);
                    }
                    let d = engine.synthesize(x, y);
                    out.push(Some(d));
                },
                _ => {
                    out.push(None);
                },
            }
            proof {
                assert(out@ =~= pairs_run(v0, ps, i as nat).1.push(pair_step(v1, ps[i as int].0, ps[i as int].1).1));
            }
            i = i + 1;
        }
        out
    }

    /// Canonicalize each byte on its own, in order.
    pub fn canonicalize_bytes_batch(&self, engine: &mut DistinctionEngine, bytes: Vec<u8>) -> (r: Vec<Distinction>)
        requires
            old(engine).wf(),
        ensures
            final(engine).wf(),
            (final(engine)@, r@) == bytes_run(old(engine)@, bytes@, bytes@.len()),
            view_extends(old(engine)@, final(engine)@),
    {
        let ghost v0 = engine@;
        let mut out: Vec<Distinction> = Vec::new();
        let mut i: usize = 0;
        while i < bytes.len()
            invariant
                engine.wf(),
                i <= bytes@.len(),
                (engine@, out@) == bytes_run(v0, bytes@, i as nat),
                view_extends(v0, engine@),
            decreases bytes@.len() - i,
        {
            let ghost before = out@;
            let d = ByteMapping::map_byte_to_distinction(bytes[i], engine);
            out.push(d);
            proof {
                assert(out@ =~= before.push(d));
            }
            i = i + 1;
        }
        out
    }
}

} // verus!
