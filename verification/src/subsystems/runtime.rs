//! Runtime-layer values: the messages peers exchange, and the runtime
//! events a runtime folds into its own causal chain.

use vstd::prelude::*;
use vstd::bytes::{spec_u64_to_le_bytes, u64_to_le_bytes};
use vstd::utf8::encode_utf8;
use crate::distinction::{Distinction, spec_d0, spec_d1, child_of};
use crate::engine::{DistinctionEngine, EngineView, view_extends, lemma_synth_view};
use crate::primitives::{Canonicalizable, synth_step};
use crate::subsystems::validator::TransactionBatch;
use crate::subsystems::network::{seeded_chain, fold_onto, lemma_seeded_chain_tip};

verus! {

broadcast use crate::distinction::group_distinction;

/// Messages exchanged between peers.
#[derive(Debug, Clone)]
pub enum NetworkMessage {
    /// A leader's batch for an epoch.
    BatchProposal { epoch: u64, batch: TransactionBatch, leader_id: String },
    /// Epoch advancement notification.
    EpochAdvance { new_epoch: u64, validator_set_hash: String },
    /// Request for a peer's state.
    StateRequest { requesting_peer: String, last_known_root: String },
    /// A peer's state.
    StateResponse { current_root: String, epoch: u64, validator_count: usize },
}

/// Runtime-level events, distinct from the consensus-level network
/// actions.
#[derive(Debug, Clone)]
pub enum RuntimeAction {
    /// A batch was received and validated.
    BatchReceived { epoch: u64, leader_id: String },
    /// A peer was discovered.
    PeerDiscovered { peer_id: String },
    /// The epoch advanced.
    EpochAdvanced { new_epoch: u64 },
}

/// The smaller of two naturals.
pub open spec fn nat_min(a: nat, b: nat) -> nat {
    if a <= b {
        a
    } else {
        b
    }
}

/// The state and tip of folding at most `cap` of `bytes` onto `seed`.
pub open spec fn prefix_chain(v: EngineView, seed: Distinction, bytes: Seq<u8>, cap: nat) -> (EngineView, Distinction) {
    seeded_chain(v, seed, bytes, nat_min(bytes.len(), cap))
}

/// Fold at most `cap` bytes of `bytes` onto `seed`.
fn fold_prefix(engine: &mut DistinctionEngine, seed: Distinction, bytes: &[u8], cap: usize) -> (d: Distinction)
    requires
        old(engine).wf(),
        old(engine)@.contains_key(seed@),
    ensures
        final(engine).wf(),
        (final(engine)@, d) == prefix_chain(old(engine)@, seed, bytes@, cap as nat),
        final(engine)@.contains_key(d@),
        view_extends(old(engine)@, final(engine)@),
{
    let take = if bytes.len() <= cap {
        bytes.len()
    } else {
        cap
    };
    fold_onto(engine, seed, bytes, take)
}

/// Fold the eight little-endian bytes of `x` onto `seed`.
fn fold_u64(engine: &mut DistinctionEngine, seed: Distinction, x: u64) -> (d: Distinction)
    requires
        old(engine).wf(),
        old(engine)@.contains_key(seed@),
    ensures
        final(engine).wf(),
        (final(engine)@, d) == seeded_chain(old(engine)@, seed, spec_u64_to_le_bytes(x), 8),
        final(engine)@.contains_key(d@),
        view_extends(old(engine)@, final(engine)@),
{
    let bytes = u64_to_le_bytes(x);
    fold_onto(engine, seed, bytes.as_slice(), 8)
}

impl Canonicalizable for RuntimeAction {
    /// A received batch is its epoch's bytes folded onto `d0`, synthesized
    /// with the first 8 leader-id bytes folded onto `d1`; a discovered peer
    /// is the first 16 peer-id bytes folded onto `d1`; an epoch is its bytes
    /// folded onto `d0`.
    open spec fn spec_canonical(&self, v: EngineView) -> (EngineView, Distinction) {
        match *self {
            RuntimeAction::BatchReceived { epoch, leader_id } => {
                let (v1, e) = seeded_chain(v, spec_d0(), spec_u64_to_le_bytes(epoch), 8);
                let (v2, l) = prefix_chain(v1, spec_d1(), encode_utf8(leader_id@), 8);
                synth_step(v2, e, l)
            },
            RuntimeAction::PeerDiscovered { peer_id } => prefix_chain(v, spec_d1(), encode_utf8(peer_id@), 16),
            RuntimeAction::EpochAdvanced { new_epoch } => seeded_chain(
                v,
                spec_d0(),
                spec_u64_to_le_bytes(new_epoch),
                8,
            ),
        }
    }

    fn to_canonical_structure(self, engine: &mut DistinctionEngine) -> (d: Distinction) {
        proof {
            engine.lemma_wf_view();
        }
        let d0 = engine.d0();
        let d1 = engine.d1();
        match self {
            RuntimeAction::BatchReceived { epoch, leader_id } => {
                let e = fold_u64(engine, d0, epoch);
                proof {
                    engine.lemma_wf_view();
                }
                let l = fold_prefix(engine, d1, leader_id.as_str().as_bytes(), 8);
                proof {
                    engine.lemma_wf_view();
                    lemma_synth_view(engine@, e, l);
                }
                engine.synthesize(e, l)
            },
            RuntimeAction::PeerDiscovered { peer_id } => fold_prefix(engine, d1, peer_id.as_str().as_bytes(), 16),
            RuntimeAction::EpochAdvanced { new_epoch } => fold_u64(engine, d0, new_epoch),
        }
    }
}

/// A fold onto a seed reads only the bytes it folds: two byte sequences
/// that agree on their first `n` bytes give the same first `n` steps.
pub proof fn lemma_seeded_chain_prefix(v: EngineView, seed: Distinction, a: Seq<u8>, b: Seq<u8>, n: nat)
    requires
        n <= a.len(),
        n <= b.len(),
        a.take(n as int) == b.take(n as int),
    ensures
        seeded_chain(v, seed, a, n) == seeded_chain(v, seed, b, n),
    decreases n,
{
    if n > 0 {
        assert(a.take(n - 1) =~= a.take(n as int).take(n - 1));
        assert(b.take(n - 1) =~= b.take(n as int).take(n - 1));
        lemma_seeded_chain_prefix(v, seed, a, b, (n - 1) as nat);
        assert(a[n - 1] == a.take(n as int)[n - 1]);
        assert(b[n - 1] == b.take(n as int)[n - 1]);
    }
}

/// The bytes of a leader id that a received batch folds: the first 8
/// bytes of its UTF-8 encoding, or all of them when there are fewer.
pub open spec fn leader_bytes(leader_id: String) -> Seq<u8> {
    let b = encode_utf8(leader_id@);
    b.take(nat_min(b.len(), 8) as int)
}

/// A received batch names its leader: its event is the epoch's event
/// synthesized with the discovery event of a peer whose id is the
/// leader id's folded bytes (the leader itself when its id is at most 8
/// bytes long), on whatever engine each of them is computed.
pub proof fn lemma_batch_received_names_leader(
    v: EngineView,
    w1: EngineView,
    w2: EngineView,
    epoch: u64,
    leader_id: String,
    peer_id: String,
)
    requires
        encode_utf8(peer_id@) == leader_bytes(leader_id),
    ensures
        (RuntimeAction::BatchReceived { epoch, leader_id }).spec_canonical(v).1 == child_of(
            (RuntimeAction::EpochAdvanced { new_epoch: epoch }).spec_canonical(w1).1,
            (RuntimeAction::PeerDiscovered { peer_id }).spec_canonical(w2).1,
        ),
{
    let l = encode_utf8(leader_id@);
    let p = encode_utf8(peer_id@);
    let m = nat_min(l.len(), 8);
    let eb = spec_u64_to_le_bytes(epoch);
    lemma_seeded_chain_tip(v, w1, spec_d0(), eb, 8);
    let v1 = seeded_chain(v, spec_d0(), eb, 8).0;
    assert(p.take(m as int) =~= p);
    lemma_seeded_chain_prefix(v1, spec_d1(), l, p, m);
    lemma_seeded_chain_tip(v1, w2, spec_d1(), p, m);
    assert(nat_min(p.len(), 16) == m);
}

/// Only the leader id's first 8 bytes reach a received batch's event:
/// two leaders whose ids agree on those bytes give the same event for the
/// same epoch.
pub proof fn lemma_batch_received_leader_prefix(v: EngineView, epoch: u64, l1: String, l2: String)
    requires
        leader_bytes(l1) == leader_bytes(l2),
    ensures
        (RuntimeAction::BatchReceived { epoch, leader_id: l1 }).spec_canonical(v).1
            == (RuntimeAction::BatchReceived { epoch, leader_id: l2 }).spec_canonical(v).1,
{
    let a = encode_utf8(l1@);
    let b = encode_utf8(l2@);
    let m = nat_min(a.len(), 8);
    assert(a.take(m as int).len() == m);
    assert(nat_min(b.len(), 8) == m);
    let v1 = seeded_chain(v, spec_d0(), spec_u64_to_le_bytes(epoch), 8).0;
    lemma_seeded_chain_prefix(v1, spec_d1(), a, b, m);
}

} // verus!
