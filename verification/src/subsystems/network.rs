//! Network-layer values: peer identities folded into the substrate, the
//! network events a consensus agent folds into its chain, and network
//! statistics.

use vstd::prelude::*;
use vstd::bytes::{spec_u64_to_le_bytes, u64_to_le_bytes};
use vstd::string::StringExecFns;
use vstd::utf8::encode_utf8;
use crate::distinction::{Distinction, spec_d0, spec_d1};
use crate::engine::{DistinctionEngine, EngineView, view_extends, lemma_synth_view};
use crate::primitives::{ByteMapping, byte_fold, synth_step, lemma_byte_fold_tip};
use crate::subsystems::validator::TransactionBatch;
use crate::bindings::hex_chars;
use crate::text::{decimal_chars, push_decimal};

verus! {

broadcast use crate::distinction::group_distinction;

/// Maximum byte length accepted for a peer id.
pub const MAX_PEER_ID_LEN: usize = 64;

/// The state and accumulator after folding the first `n` of `bytes` onto
/// `seed`: each step folds one byte and synthesizes the accumulator with
/// the byte's tip.
pub open spec fn seeded_chain(v: EngineView, seed: Distinction, bytes: Seq<u8>, n: nat) -> (EngineView, Distinction)
    decreases n,
{
    if n == 0 {
        (v, seed)
    } else {
        let (v1, acc) = seeded_chain(v, seed, bytes, (n - 1) as nat);
        let (v2, tip) = byte_fold(v1, bytes[n - 1], 8);
        synth_step(v2, acc, tip)
    }
}

/// Canonicalization is deterministic: folding bytes onto a seed gives the
/// same tip in every engine, so the same peer id names the same peer
/// everywhere.
pub proof fn lemma_seeded_chain_tip(v: EngineView, w: EngineView, seed: Distinction, bytes: Seq<u8>, n: nat)
    ensures
        seeded_chain(v, seed, bytes, n).1 == seeded_chain(w, seed, bytes, n).1,
    decreases n,
{
    if n > 0 {
        lemma_seeded_chain_tip(v, w, seed, bytes, (n - 1) as nat);
        let v1 = seeded_chain(v, seed, bytes, (n - 1) as nat).0;
        let w1 = seeded_chain(w, seed, bytes, (n - 1) as nat).0;
        lemma_byte_fold_tip(v1, w1, bytes[n - 1], 8);
    }
}

/// Fold the first `take` bytes onto `seed`; every intermediate is
/// registered in `engine`.
pub(crate) fn fold_onto(engine: &mut DistinctionEngine, seed: Distinction, bytes: &[u8], take: usize) -> (d:
    Distinction)
    requires
        old(engine).wf(),
        old(engine)@.contains_key(seed@),
        take <= bytes@.len(),
    ensures
        final(engine).wf(),
        (final(engine)@, d) == seeded_chain(old(engine)@, seed, bytes@, take as nat),
        final(engine)@.contains_key(d@),
        view_extends(old(engine)@, final(engine)@),
{
    let ghost v0 = engine@;
    let mut acc = seed;
    let mut i: usize = 0;
    while i < take
        invariant
            engine.wf(),
            i <= take <= bytes@.len(),
            (engine@, acc) == seeded_chain(v0, seed, bytes@, i as nat),
            engine@.contains_key(acc@),
            view_extends(v0, engine@),
        decreases take - i,
    {
        let tip = ByteMapping::map_byte_to_distinction(bytes[i], engine);
        proof {
            engine.lemma_wf_view();
            lemma_synth_view(engine@, acc, tip);
        }
        acc = engine.synthesize(acc, tip);
        i = i + 1;
    }
    acc
}

/// The rejection message for a peer id (as UTF-8 bytes), if any.
pub open spec fn peer_id_error(id: Seq<u8>) -> Option<Seq<char>> {
    if id.len() == 0 {
        Some("peer id must not be empty"@)
    } else if id.len() > MAX_PEER_ID_LEN {
        Some(
            "peer id length "@ + decimal_chars(id.len()) + " exceeds MAX_PEER_ID_LEN ("@ + decimal_chars(
                MAX_PEER_ID_LEN as nat,
            ) + ")"@,
        )
    } else {
        None
    }
}

/// A peer, represented as a distinction in the synthesis space.
#[derive(Debug, Clone, PartialEq, Eq)]
pub struct PeerIdentity {
    /// The peer's identifier (typically a public-key hash).
    pub id: String,
    /// The peer's distinction: its id bytes folded onto `d0`.
    pub distinction: Distinction,
}

impl PeerIdentity {
    /// Fold a peer id onto `d0`. An empty id (which would collapse onto
    /// `d0`) and an id over [`MAX_PEER_ID_LEN`] bytes are rejected before
    /// the engine is touched.
    pub fn new(id: String, engine: &mut DistinctionEngine) -> (r: Result<PeerIdentity, String>)
        requires
            old(engine).wf(),
        ensures
            final(engine).wf(),
            r is Err <==> peer_id_error(encode_utf8(id@)) is Some,
            r matches Err(msg) ==> peer_id_error(encode_utf8(id@)) == Some(msg@) && final(engine)@ == old(engine)@,
            r matches Ok(p) ==> {
                &&& p.id@ == id@
                &&& (final(engine)@, p.distinction) == seeded_chain(
                    old(engine)@,
                    spec_d0(),
                    encode_utf8(id@),
                    encode_utf8(id@).len(),
                )
            },
            view_extends(old(engine)@, final(engine)@),
    {
        let bytes = id.as_str().as_bytes();
        if bytes.len() == 0 {
            return Err(String::from_str("peer id must not be empty"));
        }
        if bytes.len() > MAX_PEER_ID_LEN {
            let mut msg = String::from_str("peer id length ");
            push_decimal(&mut msg, bytes.len() as u64);
            msg.append(" exceeds MAX_PEER_ID_LEN (");
            push_decimal(&mut msg, MAX_PEER_ID_LEN as u64);
            msg.append(")");
            return Err(msg);
        }
        proof {
            engine.lemma_wf_view();
        }
        let d0 = engine.d0();
        let distinction = fold_onto(engine, d0, bytes, bytes.len());
        Ok(PeerIdentity { id, distinction })
    }

    /// The peer's distinction as 32 lowercase hex characters.
    pub fn distinction_id(&self) -> (s: String)
        ensures
            s@ == hex_chars(self.distinction@@),
    {
        self.distinction.to_hex()
    }
}

/// Network events that a consensus agent folds into its chain.
#[derive(Debug, Clone)]
pub enum NetworkAction {
    /// A peer joined the validator set.
    PeerJoined { peer: PeerIdentity },
    /// The leader proposed a batch.
    BatchProposed { batch: TransactionBatch },
    /// The epoch advanced (leader rotation).
    EpochAdvanced { new_epoch: u64 },
}

/// The distinctions an action synthesizes with must be registered.
pub open spec fn network_action_ready(v: EngineView, a: NetworkAction) -> bool {
    match a {
        NetworkAction::PeerJoined { peer } => v.contains_key(peer.distinction@),
        NetworkAction::BatchProposed { batch } => v.contains_key(batch.previous_root@),
        NetworkAction::EpochAdvanced { .. } => true,
    }
}

/// The state and tip of canonicalizing a network action on state `v`: a
/// join is `d1 ⊗ peer`, a proposal is `d0 ⊗ previous_root`, an epoch is its
/// eight little-endian bytes folded onto `d1`.
pub open spec fn network_action_fold(v: EngineView, a: NetworkAction) -> (EngineView, Distinction) {
    match a {
        NetworkAction::PeerJoined { peer } => synth_step(v, spec_d1(), peer.distinction),
        NetworkAction::BatchProposed { batch } => synth_step(v, spec_d0(), batch.previous_root),
        NetworkAction::EpochAdvanced { new_epoch } => seeded_chain(v, spec_d1(), spec_u64_to_le_bytes(new_epoch), 8),
    }
}

impl NetworkAction {
    /// Lift the action into `engine` and return its tip.
    pub fn to_canonical_structure(self, engine: &mut DistinctionEngine) -> (d: Distinction)
        requires
            old(engine).wf(),
            network_action_ready(old(engine)@, self),
        ensures
            final(engine).wf(),
            (final(engine)@, d) == network_action_fold(old(engine)@, self),
            final(engine)@.contains_key(d@),
            view_extends(old(engine)@, final(engine)@),
    {
        proof {
            engine.lemma_wf_view();
        }
        match self {
            NetworkAction::PeerJoined { peer } => {
                let d1 = engine.d1();
                proof {
                    lemma_synth_view(engine@, d1, peer.distinction);
                }
                engine.synthesize(d1, peer.distinction)
            },
            NetworkAction::BatchProposed { batch } => {
                let d0 = engine.d0();
                proof {
                    lemma_synth_view(engine@, d0, batch.previous_root);
                }
                engine.synthesize(d0, batch.previous_root)
            },
            NetworkAction::EpochAdvanced { new_epoch } => {
                let bytes = u64_to_le_bytes(new_epoch);
                let d1 = engine.d1();
                fold_onto(engine, d1, bytes.as_slice(), 8)
            },
        }
    }
}

/// Network statistics.
#[derive(Debug, Clone)]
pub struct NetworkStats {
    /// Current consensus epoch.
    pub current_epoch: u64,
    /// Number of validators in the set.
    pub validator_count: usize,
    /// Number of network events processed.
    pub events_processed: u64,
    /// The consensus validator's expected nonce.
    pub consensus_nonce: u64,
    /// The network root as 32 hex characters.
    pub network_root: String,
}

} // verus!
