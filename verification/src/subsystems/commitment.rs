//! Batch commitment: a cryptographic commitment to a batch, safe to share
//! before the batch data, binding the batch's chain root, nonce, epoch,
//! leader and size; and an agent that caches (batch, commitment) pairs for
//! later fetch and folds processed commitments into its local root.

use vstd::prelude::*;
use vstd::bytes::spec_u64_to_le_bytes;
use vstd::string::StringExecFns;
use vstd::utf8::encode_utf8;
use lru::LruCache;
use crate::distinction::{Distinction, spec_d0};
use crate::engine::{DistinctionEngine, EngineView, view_extends, lemma_synth_view};
use crate::primitives::{ByteMapping, Canonicalizable};
use crate::agent::{LocalCausalAgent, causal_step};
use crate::subsystems::validator::{
    TransactionBatch, TransactionAction, commit_chain, bytes_chain, fold_transactions, lemma_commit_chain_tip,
    action_bytes, action_fold,
};
use crate::projection::{push_bytes, push_u64_le, slices_equal};
use crate::text::{decimal_chars, push_decimal};
use crate::bindings::{
    sha256, sha256_digest, batch_cache_entries, batch_cache_cap, batch_cache_new, batch_cache_put, batch_cache_get,
    batch_cache_contains, lru_has, lru_put, lru_touch, lru_value, lru_without,
};

verus! {

broadcast use crate::distinction::group_distinction;

/// Maximum bytes in a leader identifier.
pub const MAX_LEADER_ID_LEN: usize = 64;

/// Capacity of the batch-data cache of a [`CommitmentAgent::new`] agent.
pub const COMMITMENT_CACHE_CAP: usize = 1000;

/// A commitment to a batch.
#[derive(Debug, Clone, PartialEq, Eq)]
pub struct BatchCommitment {
    /// SHA-256 digest of the commitment inputs.
    pub commitment_hash: [u8; 32],
    /// Sequential batch nonce.
    pub nonce: u64,
    /// Epoch in which the batch was proposed.
    pub epoch: u64,
    /// Leader that proposed the batch; length-prefixed into the hash.
    pub leader_id: String,
    /// Number of transactions in the batch.
    pub batch_size: usize,
}

/// Reasons [`BatchCommitment::compute`] can fail.
#[derive(Debug, Clone, PartialEq, Eq)]
#[non_exhaustive]
pub enum CommitmentError {
    /// `leader_id` is empty.
    EmptyLeaderId,
    /// `leader_id` exceeds [`MAX_LEADER_ID_LEN`] bytes.
    LeaderIdTooLong {
        /// Actual length.
        got: usize,
        /// The cap.
        cap: usize,
    },
}

/// The display message of a commitment error.
pub open spec fn commitment_message(e: CommitmentError) -> Seq<char> {
    match e {
        CommitmentError::EmptyLeaderId => "empty leader_id"@,
        CommitmentError::LeaderIdTooLong { got, cap } => "leader_id too long: "@ + decimal_chars(got as nat)
            + " bytes (cap "@ + decimal_chars(cap as nat) + ")"@,
    }
}

impl CommitmentError {
    /// The display message.
    pub fn to_display_string(&self) -> (s: String)
        ensures
            s@ == commitment_message(*self),
    {
        match self {
            CommitmentError::EmptyLeaderId => String::from_str("empty leader_id"),
            CommitmentError::LeaderIdTooLong { got, cap } => {
                let mut s = String::from_str("leader_id too long: ");
                push_decimal(&mut s, *got as u64);
                s.append(" bytes (cap ");
                push_decimal(&mut s, *cap as u64);
                s.append(")");
                s
            },
        }
    }
}

/// The error a leader identifier (as UTF-8 bytes) gets, if any.
pub open spec fn leader_error(leader: Seq<u8>) -> Option<CommitmentError> {
    if leader.len() == 0 {
        Some(CommitmentError::EmptyLeaderId)
    } else if leader.len() > MAX_LEADER_ID_LEN {
        Some(CommitmentError::LeaderIdTooLong { got: leader.len() as usize, cap: MAX_LEADER_ID_LEN })
    } else {
        None
    }
}

/// The bytes a commitment hashes, in order: the batch root, nonce and
/// epoch (8 bytes LE each), the leader's byte length (8 bytes LE) and
/// bytes, and the batch size (8 bytes LE).
pub open spec fn commitment_input(batch_root: Distinction, nonce: u64, epoch: u64, leader: Seq<u8>, batch_size: usize) -> Seq<
    u8,
> {
    batch_root@@ + spec_u64_to_le_bytes(nonce) + spec_u64_to_le_bytes(epoch) + spec_u64_to_le_bytes(leader.len() as u64)
        + leader + spec_u64_to_le_bytes(batch_size as u64)
}

/// The chain root of a batch on state `v`: each transaction folded onto
/// the batch's previous root (state and root).
pub open spec fn batch_root(v: EngineView, batch: TransactionBatch) -> (EngineView, Distinction) {
    commit_chain(v, batch.previous_root, batch.transactions@, batch.transactions@.len())
}

/// Fold bytes into a distinction: the first byte's fold, then each further
/// byte's fold synthesized onto the accumulator.
fn fold_bytes(engine: &mut DistinctionEngine, bytes: &[u8]) -> (d: Distinction)
    requires
        old(engine).wf(),
        bytes@.len() >= 1,
    ensures
        final(engine).wf(),
        (final(engine)@, d) == bytes_chain(old(engine)@, bytes@, bytes@.len()),
        final(engine)@.contains_key(d@),
        view_extends(old(engine)@, final(engine)@),
{
    let ghost v0 = engine@;
    let mut acc = ByteMapping::map_byte_to_distinction(bytes[0], engine);
    let mut i: usize = 1;
    while i < bytes.len()
        invariant
            engine.wf(),
            1 <= i <= bytes@.len(),
            (engine@, acc) == bytes_chain(v0, bytes@, i as nat),
            engine@.contains_key(acc@),
            view_extends(v0, engine@),
        decreases bytes@.len() - i,
    {
        let d = ByteMapping::map_byte_to_distinction(bytes[i], engine);
        proof {
            engine.lemma_wf_view();
            lemma_synth_view(engine@, acc, d);
        }
        acc = engine.synthesize(acc, d);
        i = i + 1;
    }
    acc
}

impl BatchCommitment {
    /// Compute a commitment: check the leader identifier, fold the batch's
    /// transactions onto its previous root, and hash the inputs of
    /// [`commitment_input`].
    pub fn compute(batch: &TransactionBatch, nonce: u64, epoch: u64, leader_id: String, engine: &mut DistinctionEngine) -> (r:
        Result<BatchCommitment, CommitmentError>)
        requires
            old(engine).wf(),
            leader_error(encode_utf8(leader_id@)) is None ==> old(engine)@.contains_key(batch.previous_root@),
        ensures
            final(engine).wf(),
            r is Err <==> leader_error(encode_utf8(leader_id@)) is Some,
            r matches Err(e) ==> leader_error(encode_utf8(leader_id@)) == Some(e) && final(engine)@ == old(engine)@,
            r matches Ok(c) ==> {
                &&& final(engine)@ == batch_root(old(engine)@, *batch).0
                &&& c.commitment_hash@ == sha256_digest(
                    commitment_input(
                        batch_root(old(engine)@, *batch).1,
                        nonce,
                        epoch,
                        encode_utf8(leader_id@),
                        batch.transactions@.len() as usize,
                    ),
                )
                &&& c.nonce == nonce
                &&& c.epoch == epoch
                &&& c.leader_id@ == leader_id@
                &&& c.batch_size == batch.transactions@.len()
            },
    {
        let ghost lb_spec = encode_utf8(leader_id@);
        let lb = leader_id.as_str().as_bytes();
        if lb.len() == 0 {
            return Err(CommitmentError::EmptyLeaderId);
        }
        if lb.len() > MAX_LEADER_ID_LEN {
            return Err(CommitmentError::LeaderIdTooLong { got: lb.len(), cap: MAX_LEADER_ID_LEN });
        }
        let root = fold_transactions(engine, batch.previous_root, &batch.transactions);
        let batch_size = batch.transactions.len();
        let mut buf: Vec<u8> = Vec::new();
        push_bytes(&mut buf, root.as_bytes().as_slice());
        push_u64_le(&mut buf, nonce);
        push_u64_le(&mut buf, epoch);
        push_u64_le(&mut buf, lb.len() as u64);
        push_bytes(&mut buf, lb);
        push_u64_le(&mut buf, batch_size as u64);
        proof {
            assert(buf@ =~= commitment_input(root, nonce, epoch, lb_spec, batch_size));
        }
        let commitment_hash = sha256(buf.as_slice());
        Ok(BatchCommitment { commitment_hash, nonce, epoch, leader_id, batch_size })
    }

    /// Whether `batch` is authentic under this commitment: its size
    /// matches, and recomputing with the stored nonce, epoch and leader
    /// gives the stored hash.
    pub fn verify_batch(&self, batch: &TransactionBatch, engine: &mut DistinctionEngine) -> (b: bool)
        requires
            old(engine).wf(),
            leader_error(encode_utf8(self.leader_id@)) is None ==> old(engine)@.contains_key(batch.previous_root@),
        ensures
            final(engine).wf(),
            b == (batch.transactions@.len() == self.batch_size && leader_error(encode_utf8(self.leader_id@)) is None
                && self.commitment_hash@ == sha256_digest(
                commitment_input(
                    batch_root(old(engine)@, *batch).1,
                    self.nonce,
                    self.epoch,
                    encode_utf8(self.leader_id@),
                    self.batch_size,
                ),
            )),
            batch.transactions@.len() == self.batch_size && leader_error(encode_utf8(self.leader_id@)) is None
                ==> final(engine)@ == batch_root(old(engine)@, *batch).0,
            !(batch.transactions@.len() == self.batch_size && leader_error(encode_utf8(self.leader_id@)) is None)
                ==> final(engine)@ == old(engine)@,
    {
        if batch.transactions.len() != self.batch_size {
            return false;
        }
        let recomputed = match BatchCommitment::compute(batch, self.nonce, self.epoch, self.leader_id.clone(), engine) {
            Ok(c) => c,
            Err(_) => {
                return false;
            },
        };
        slices_equal(recomputed.commitment_hash.as_slice(), self.commitment_hash.as_slice())
    }
}

impl Canonicalizable for BatchCommitment {
    /// The fold of the 32 hash bytes.
    open spec fn spec_canonical(&self, v: EngineView) -> (EngineView, Distinction) {
        bytes_chain(v, self.commitment_hash@, 32)
    }

    fn to_canonical_structure(self, engine: &mut DistinctionEngine) -> (d: Distinction) {
        fold_bytes(engine, self.commitment_hash.as_slice())
    }
}

/// A commitment's canonical form is the fold of its whole hash: every one
/// of its 32 bytes, in order.
pub proof fn lemma_commitment_fold_covers_hash(v: EngineView, c: BatchCommitment)
    ensures
        c.commitment_hash@.len() == 32,
        c.spec_canonical(v) == bytes_chain(v, c.commitment_hash@, c.commitment_hash@.len()),
{
}

/// Advancing by a commitment folds its hash exactly as validating a
/// transaction folds its bytes: where a transaction's nonce and payload
/// are the 32 hash bytes, both give the same canonical form, and an agent
/// at `root` advances to the same new root by either.
pub proof fn lemma_commitment_folds_like_transaction(
    v: EngineView,
    root: Distinction,
    c: BatchCommitment,
    tx: TransactionAction,
)
    requires
        action_bytes(tx) == c.commitment_hash@,
    ensures
        c.spec_canonical(v) == action_fold(v, tx),
        c.spec_canonical(v) == tx.spec_canonical(v),
        causal_step(v, root, c) == causal_step(v, root, tx),
{
}

/// Round trip: a commitment that `compute` produced for a batch on one
/// engine state passes `verify_batch` for that batch on any engine state,
/// the state `compute` left behind included, since the batch root is the
/// same everywhere.
pub proof fn lemma_commitment_round_trip(v: EngineView, w: EngineView, batch: TransactionBatch, c: BatchCommitment)
    requires
        leader_error(encode_utf8(c.leader_id@)) is None,
        c.batch_size == batch.transactions@.len(),
        c.commitment_hash@ == sha256_digest(
            commitment_input(batch_root(v, batch).1, c.nonce, c.epoch, encode_utf8(c.leader_id@), c.batch_size),
        ),
    ensures
        batch.transactions@.len() == c.batch_size && leader_error(encode_utf8(c.leader_id@)) is None
            && c.commitment_hash@ == sha256_digest(
            commitment_input(batch_root(w, batch).1, c.nonce, c.epoch, encode_utf8(c.leader_id@), c.batch_size),
        ),
{
    lemma_commit_chain_tip(v, w, batch.previous_root, batch.transactions@, batch.transactions@.len());
}

/// Request from a peer that holds a commitment and wants the batch data.
#[derive(Debug, Clone, PartialEq, Eq)]
pub struct BatchDataRequest {
    /// The commitment hash being requested.
    pub commitment_hash: [u8; 32],
    /// Identifier of the requesting peer.
    pub requester_id: String,
}

/// Response carrying batch data and its commitment.
#[derive(Debug, Clone, PartialEq, Eq)]
pub struct BatchDataResponse {
    /// The batch being delivered.
    pub batch: TransactionBatch,
    /// The commitment the batch matches.
    pub commitment: BatchCommitment,
}

/// The cache holds each key at most once and no more than `cap` entries.
pub open spec fn cache_bounded<V>(s: Seq<([u8; 32], V)>, cap: nat) -> bool {
    &&& forall|i: int, j: int| 0 <= i < s.len() && 0 <= j < s.len() && i != j ==> #[trigger] s[i].0 != #[trigger] s[j].0
    &&& s.len() <= cap
}

/// Dropping key `k` from a cache with distinct keys removes exactly its
/// entry (if present), keeps the rest distinct, and adds no key.
proof fn lemma_without<V>(s: Seq<([u8; 32], V)>, k: [u8; 32])
    requires
        forall|i: int, j: int| 0 <= i < s.len() && 0 <= j < s.len() && i != j ==> #[trigger] s[i].0 != #[trigger] s[j].0,
    ensures
        forall|i: int, j: int|
            0 <= i < lru_without(s, k).len() && 0 <= j < lru_without(s, k).len() && i != j ==> #[trigger] lru_without(
                s,
                k,
            )[i].0 != #[trigger] lru_without(s, k)[j].0,
        !lru_has(lru_without(s, k), k),
        forall|x: [u8; 32]| #[trigger] lru_has(lru_without(s, k), x) ==> lru_has(s, x),
        lru_without(s, k).len() == (if lru_has(s, k) {
            s.len() - 1
        } else {
            s.len() as int
        }),
    decreases s.len(),
{
    broadcast use Seq::lemma_filter_push;

    let w = lru_without(s, k);
    if s.len() == 0 {
        assert(w.len() == 0) by {
            reveal(Seq::filter);
        }
    } else {
        let t = s.drop_last();
        let e = s.last();
        assert(s =~= t.push(e));
        assert forall|i: int, j: int| 0 <= i < t.len() && 0 <= j < t.len() && i != j implies #[trigger] t[i].0
            != #[trigger] t[j].0 by {
            assert(t[i] == s[i] && t[j] == s[j]);
        }
        lemma_without(t, k);
        let wt = lru_without(t, k);
        assert(w == (if e.0 != k { wt.push(e) } else { wt }));
        if e.0 != k {
            assert(!lru_has(t, e.0)) by {
                if lru_has(t, e.0) {
                    let i = choose|i: int| 0 <= i < t.len() && t[i].0 == e.0;
                    assert(s[i] == t[i]);
                    assert(s[s.len() - 1] == e);
                }
            }
            assert forall|i: int, j: int| 0 <= i < w.len() && 0 <= j < w.len() && i != j implies #[trigger] w[i].0
                != #[trigger] w[j].0 by {
                if i < wt.len() && j < wt.len() {
                    assert(w[i] == wt[i] && w[j] == wt[j]);
                } else if i < wt.len() {
                    assert(w[i] == wt[i]);
                    assert(lru_has(wt, wt[i].0));
                } else if j < wt.len() {
                    assert(w[j] == wt[j]);
                    assert(lru_has(wt, wt[j].0));
                }
            }
            assert(!lru_has(w, k)) by {
                if lru_has(w, k) {
                    let i = choose|i: int| 0 <= i < w.len() && w[i].0 == k;
                    if i < wt.len() {
                        assert(w[i] == wt[i]);
                    }
                }
            }
            assert forall|x: [u8; 32]| #[trigger] lru_has(w, x) implies lru_has(s, x) by {
                let i = choose|i: int| 0 <= i < w.len() && w[i].0 == x;
                if i < wt.len() {
                    assert(w[i] == wt[i]);
                    assert(lru_has(wt, x));
                    let j = choose|j: int| 0 <= j < t.len() && t[j].0 == x;
                    assert(s[j] == t[j]);
                } else {
                    assert(s[s.len() - 1].0 == x);
                }
            }
            assert(lru_has(s, k) == lru_has(t, k)) by {
                if lru_has(s, k) {
                    let i = choose|i: int| 0 <= i < s.len() && s[i].0 == k;
                    assert(i < t.len());
                    assert(t[i] == s[i]);
                }
                if lru_has(t, k) {
                    let i = choose|i: int| 0 <= i < t.len() && t[i].0 == k;
                    assert(s[i] == t[i]);
                }
            }
        } else {
            assert(!lru_has(t, k)) by {
                if lru_has(t, k) {
                    let i = choose|i: int| 0 <= i < t.len() && t[i].0 == k;
                    assert(s[i] == t[i]);
                    assert(s[s.len() - 1] == e);
                }
            }
            assert(lru_has(s, k)) by {
                assert(s[s.len() - 1].0 == k);
            }
            assert forall|x: [u8; 32]| #[trigger] lru_has(w, x) implies lru_has(s, x) by {
                assert(lru_has(wt, x));
                let j = choose|j: int| 0 <= j < t.len() && t[j].0 == x;
                assert(s[j] == t[j]);
            }
        }
    }
}

/// `put` keeps a bounded cache bounded.
pub proof fn lemma_put_bounded<V>(s: Seq<([u8; 32], V)>, k: [u8; 32], v: V, cap: nat)
    requires
        cache_bounded(s, cap),
        cap > 0,
    ensures
        cache_bounded(lru_put(s, k, v, cap), cap),
{
    let r = lru_put(s, k, v, cap);
    if lru_has(s, k) {
        lemma_without(s, k);
        let w = lru_without(s, k);
        assert forall|i: int, j: int| 0 <= i < r.len() && 0 <= j < r.len() && i != j implies #[trigger] r[i].0
            != #[trigger] r[j].0 by {
            if i > 0 && j > 0 {
                assert(r[i] == w[i - 1] && r[j] == w[j - 1]);
            } else if i > 0 {
                assert(r[i] == w[i - 1]);
                assert(lru_has(w, w[i - 1].0));
            } else {
                assert(r[j] == w[j - 1]);
                assert(lru_has(w, w[j - 1].0));
            }
        }
    } else {
        let rest = if s.len() == cap {
            s.drop_last()
        } else {
            s
        };
        assert forall|i: int, j: int| 0 <= i < r.len() && 0 <= j < r.len() && i != j implies #[trigger] r[i].0
            != #[trigger] r[j].0 by {
            if i > 0 && j > 0 {
                assert(r[i] == rest[i - 1] && r[j] == rest[j - 1]);
                assert(rest[i - 1] == s[i - 1] && rest[j - 1] == s[j - 1]);
            } else if i > 0 {
                assert(r[i] == rest[i - 1] && rest[i - 1] == s[i - 1]);
            } else {
                assert(r[j] == rest[j - 1] && rest[j - 1] == s[j - 1]);
            }
        }
    }
}

/// `get` keeps a bounded cache bounded.
pub proof fn lemma_touch_bounded<V>(s: Seq<([u8; 32], V)>, k: [u8; 32], cap: nat)
    requires
        cache_bounded(s, cap),
    ensures
        cache_bounded(lru_touch(s, k), cap),
{
    if lru_has(s, k) {
        lemma_without(s, k);
        let w = lru_without(s, k);
        let r = lru_touch(s, k);
        assert forall|i: int, j: int| 0 <= i < r.len() && 0 <= j < r.len() && i != j implies #[trigger] r[i].0
            != #[trigger] r[j].0 by {
            if i > 0 && j > 0 {
                assert(r[i] == w[i - 1] && r[j] == w[j - 1]);
            } else if i > 0 {
                assert(r[i] == w[i - 1]);
                assert(lru_has(w, w[i - 1].0));
            } else {
                assert(r[j] == w[j - 1]);
                assert(lru_has(w, w[j - 1].0));
            }
        }
    }
}

/// A cached (batch, commitment) pair.
pub type CachedBatch = (TransactionBatch, BatchCommitment);

/// An agent that processes commitments and caches (batch, commitment)
/// pairs, keyed by commitment hash, for later fetch.
pub struct CommitmentAgent {
    local_root: Distinction,
    cache: LruCache<[u8; 32], CachedBatch>,
    commitments_processed: u64,
}

impl CommitmentAgent {
    /// The local root.
    pub closed spec fn root(&self) -> Distinction {
        self.local_root
    }

    /// The cached pairs, most recently used first.
    pub closed spec fn cached(&self) -> Seq<([u8; 32], CachedBatch)> {
        batch_cache_entries(self.cache)
    }

    /// The cache's capacity.
    pub closed spec fn capacity(&self) -> nat {
        batch_cache_cap(self.cache)
    }

    /// The number of commitments processed.
    pub closed spec fn processed(&self) -> u64 {
        self.commitments_processed
    }

    /// The cache's capacity is positive, and the cache holds each hash at
    /// most once and never more entries than its capacity.
    pub open spec fn wf(&self) -> bool {
        &&& self.capacity() > 0
        &&& cache_bounded(self.cached(), self.capacity())
    }

    /// A fresh agent rooted at `d0` with a cache of
    /// [`COMMITMENT_CACHE_CAP`] entries.
    pub fn new(engine: &DistinctionEngine) -> (a: CommitmentAgent)
        requires
            engine.wf(),
        ensures
            a.wf(),
            a.root() == spec_d0(),
            a.cached() == Seq::<([u8; 32], CachedBatch)>::empty(),
            a.capacity() == COMMITMENT_CACHE_CAP,
            a.processed() == 0,
    {
        CommitmentAgent::with_capacity(engine, COMMITMENT_CACHE_CAP)
    }

    /// A fresh agent with a cache of `capacity > 0` entries.
    pub fn with_capacity(engine: &DistinctionEngine, capacity: usize) -> (a: CommitmentAgent)
        requires
            engine.wf(),
            capacity > 0,
        ensures
            a.wf(),
            a.root() == spec_d0(),
            a.cached() == Seq::<([u8; 32], CachedBatch)>::empty(),
            a.capacity() == capacity,
            a.processed() == 0,
    {
        CommitmentAgent { local_root: engine.d0(), cache: batch_cache_new(capacity), commitments_processed: 0 }
    }

    /// Cache a pair under its commitment hash, as the most recently used
    /// entry (evicting the least recently used one when full).
    pub fn cache_batch(&mut self, batch: TransactionBatch, commitment: BatchCommitment)
        requires
            old(self).wf(),
        ensures
            final(self).wf(),
            final(self).cached() == lru_put(
                old(self).cached(),
                commitment.commitment_hash,
                (batch, commitment),
                old(self).capacity(),
            ),
            final(self).capacity() == old(self).capacity(),
            final(self).root() == old(self).root(),
            final(self).processed() == old(self).processed(),
    {
        let hash = commitment.commitment_hash;
        proof {
            lemma_put_bounded(self.cached(), hash, (batch, commitment), self.capacity());
        }
        batch_cache_put(&mut self.cache, hash, (batch, commitment));
    }

    /// The cached pair under `hash`, which becomes the most recently used.
    pub fn get_cached_batch(&mut self, hash: &[u8; 32]) -> (r: Option<&CachedBatch>)
        requires
            old(self).wf(),
        ensures
            final(self).wf(),
            final(self).cached() == lru_touch(old(self).cached(), *hash),
            lru_has(old(self).cached(), *hash) ==> (r matches Some(x) && *x == lru_value(old(self).cached(), *hash)),
            !lru_has(old(self).cached(), *hash) ==> r is None,
            final(self).capacity() == old(self).capacity(),
            final(self).root() == old(self).root(),
            final(self).processed() == old(self).processed(),
    {
        proof {
            lemma_touch_bounded(self.cached(), *hash, self.capacity());
        }
        batch_cache_get(&mut self.cache, hash)
    }

    /// Whether a pair is cached under `hash`; recency is not touched.
    pub fn has_cached(&self, hash: &[u8; 32]) -> (b: bool)
        ensures
            b == lru_has(self.cached(), *hash),
    {
        batch_cache_contains(&self.cache, hash)
    }

    /// The number of commitments processed since construction.
    pub fn commitments_processed(&self) -> (n: u64)
        ensures
            n == self.processed(),
    {
        self.commitments_processed
    }

    /// The local root.
    pub fn local_root(&self) -> (d: Distinction)
        ensures
            d == self.root(),
    {
        self.local_root
    }

    /// Fold a commitment into the local root and count it.
    pub fn advance(&mut self, commitment: BatchCommitment, engine: &mut DistinctionEngine)
        requires
            old(engine).wf(),
            old(engine)@.contains_key(old(self).root()@),
        ensures
            final(engine).wf(),
            (final(engine)@, final(self).root()) == causal_step(old(engine)@, old(self).root(), commitment),
            final(self).processed() == old(self).processed().wrapping_add(1),
            final(self).cached() == old(self).cached(),
            final(self).capacity() == old(self).capacity(),
    {
        let ghost v0 = engine@;
        let commit_d = commitment.to_canonical_structure(engine);
        proof {
            engine.lemma_wf_view();
            lemma_synth_view(engine@, self.local_root, commit_d);
        }
        self.local_root = engine.synthesize(self.local_root, commit_d);
        self.commitments_processed = self.commitments_processed.wrapping_add(1);
    }
}

impl LocalCausalAgent for CommitmentAgent {
    type ActionData = BatchCommitment;

    open spec fn spec_root(&self) -> Distinction {
        self.root()
    }

    fn get_current_root(&self) -> (d: Distinction) {
        self.local_root
    }

    fn update_local_root(&mut self, new_root: Distinction) {
        self.local_root = new_root;
    }
}

} // verus!
