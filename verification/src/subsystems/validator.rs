//! Consensus batch validator: a reference local causal agent.
//!
//! Advances a local causal chain by validating batches of
//! [`TransactionAction`]s. Rejection is atomic: a pre-validation pass runs
//! before any engine mutation, so a rejected batch leaves both the engine
//! and the validator unchanged.

use vstd::prelude::*;
use crate::distinction::{Distinction, child_of};
use crate::engine::{DistinctionEngine, EngineView, view_extends, lemma_synth_view};
use crate::primitives::{ByteMapping, Canonicalizable, byte_fold, synth_step, lemma_byte_fold_tip};
use crate::agent::LocalCausalAgent;
use crate::text::{decimal_chars, debug_chars, push_decimal, lemma_decimal_u64};
use vstd::string::StringExecFns;

verus! {

broadcast use crate::distinction::group_distinction;

/// Maximum bytes in a single transaction's `data` payload.
pub const MAX_DATA_LEN: usize = 4096;

/// Maximum number of transactions in a single batch.
pub const MAX_TRANSACTIONS_PER_BATCH: usize = 1024;

/// A single transaction action: a sequential nonce and a payload.
#[derive(Debug, Clone, PartialEq, Eq)]
pub struct TransactionAction {
    /// Sequential nonce.
    pub nonce: u64,
    /// Payload bytes. Non-empty, at most [`MAX_DATA_LEN`].
    pub data: Vec<u8>,
}

/// A batch of transaction actions rooted at a parent distinction.
#[derive(Debug, Clone, PartialEq, Eq)]
pub struct TransactionBatch {
    /// The parent root this batch continues from.
    pub previous_root: Distinction,
    /// Ordered transactions.
    pub transactions: Vec<TransactionAction>,
}

/// Reasons batch validation can fail.
#[derive(Debug, Clone, PartialEq, Eq)]
pub enum ValidatorError {
    /// The batch's `previous_root` is not the validator's local root.
    RootMismatch {
        /// Validator's current local root.
        expected: Distinction,
        /// The batch's claimed previous root.
        got: Distinction,
    },
    /// The batch has no transactions.
    EmptyBatch,
    /// The batch exceeds [`MAX_TRANSACTIONS_PER_BATCH`].
    BatchTooLarge {
        /// Actual count.
        got: usize,
        /// The cap.
        cap: usize,
    },
    /// A transaction's nonce breaks the expected sequence.
    NonceMismatch {
        /// Position of the offending transaction.
        tx_index: usize,
        /// Expected nonce.
        expected: u64,
        /// Provided nonce.
        got: u64,
    },
    /// A transaction's `data` exceeds [`MAX_DATA_LEN`].
    DataTooLarge {
        /// Position of the offending transaction.
        tx_index: usize,
        /// Actual length.
        got: usize,
        /// The cap.
        cap: usize,
    },
    /// A transaction has empty `data`.
    EmptyData {
        /// Position of the offending transaction.
        tx_index: usize,
    },
}

impl TransactionAction {
    /// Construct with non-empty and size validation.
    pub fn new(nonce: u64, data: Vec<u8>) -> (r: Result<TransactionAction, ValidatorError>)
        ensures
            data@.len() == 0 ==> r == Err::<TransactionAction, ValidatorError>(
                ValidatorError::EmptyData { tx_index: 0 },
            ),
            0 < data@.len() && data@.len() > MAX_DATA_LEN ==> r == Err::<TransactionAction, ValidatorError>(
                ValidatorError::DataTooLarge { tx_index: 0, got: data@.len() as usize, cap: MAX_DATA_LEN },
            ),
            0 < data@.len() <= MAX_DATA_LEN ==> (r matches Ok(tx) && tx.nonce == nonce && tx.data@ == data@),
    {
        if data.len() == 0 {
            return Err(ValidatorError::EmptyData { tx_index: 0 });
        }
        if data.len() > MAX_DATA_LEN {
            return Err(ValidatorError::DataTooLarge { tx_index: 0, got: data.len(), cap: MAX_DATA_LEN });
        }
        Ok(TransactionAction { nonce, data })
    }
}

/// The display message of a validator error.
pub open spec fn validator_message(e: ValidatorError) -> Seq<char> {
    match e {
        ValidatorError::RootMismatch { expected, got } => "root mismatch: expected "@ + debug_chars(expected)
            + ", got "@ + debug_chars(got),
        ValidatorError::EmptyBatch => "empty batch: at least one transaction required"@,
        ValidatorError::BatchTooLarge { got, cap } => "batch too large: "@ + decimal_chars(got as nat)
            + " transactions (cap "@ + decimal_chars(cap as nat) + ")"@,
        ValidatorError::NonceMismatch { tx_index, expected, got } => "nonce mismatch at tx "@ + decimal_chars(
            tx_index as nat,
        ) + ": expected "@ + decimal_chars(expected as nat) + ", got "@ + decimal_chars(got as nat),
        ValidatorError::DataTooLarge { tx_index, got, cap } => "tx "@ + decimal_chars(tx_index as nat)
            + " data too large: "@ + decimal_chars(got as nat) + " bytes (cap "@ + decimal_chars(cap as nat) + ")"@,
        ValidatorError::EmptyData { tx_index } => "tx "@ + decimal_chars(tx_index as nat)
            + ": empty data (empty-data disallowed by design)"@,
    }
}

impl ValidatorError {
    /// The display message.
    pub fn to_display_string(&self) -> (s: String)
        ensures
            s@ == validator_message(*self),
    {
        match self {
            ValidatorError::RootMismatch { expected, got } => {
                let mut s = String::from_str("root mismatch: expected ");
                let a = expected.to_debug_string();
                s.append(a.as_str());
                s.append(", got ");
                let b = got.to_debug_string();
                s.append(b.as_str());
                s
            },
            ValidatorError::EmptyBatch => String::from_str("empty batch: at least one transaction required"),
            ValidatorError::BatchTooLarge { got, cap } => {
                let mut s = String::from_str("batch too large: ");
                push_decimal(&mut s, *got as u64);
                s.append(" transactions (cap ");
                push_decimal(&mut s, *cap as u64);
                s.append(")");
                s
            },
            ValidatorError::NonceMismatch { tx_index, expected, got } => {
                let mut s = String::from_str("nonce mismatch at tx ");
                push_decimal(&mut s, *tx_index as u64);
                s.append(": expected ");
                push_decimal(&mut s, *expected);
                s.append(", got ");
                push_decimal(&mut s, *got);
                s
            },
            ValidatorError::DataTooLarge { tx_index, got, cap } => {
                let mut s = String::from_str("tx ");
                push_decimal(&mut s, *tx_index as u64);
                s.append(" data too large: ");
                push_decimal(&mut s, *got as u64);
                s.append(" bytes (cap ");
                push_decimal(&mut s, *cap as u64);
                s.append(")");
                s
            },
            ValidatorError::EmptyData { tx_index } => {
                let mut s = String::from_str("tx ");
                push_decimal(&mut s, *tx_index as u64);
                s.append(": empty data (empty-data disallowed by design)");
                s
            },
        }
    }
}

/// Every validator error message is shorter than 512 characters: each
/// variant carries only bounded data (V4).
pub proof fn lemma_message_bounded(e: ValidatorError)
    ensures
        validator_message(e).len() < 512,
{
    assert forall|n: nat| n <= u64::MAX implies #[trigger] decimal_chars(n).len() <= 20 by {
        lemma_decimal_u64(n);
    }
    reveal_strlit("root mismatch: expected ");
    reveal_strlit(", got ");
    reveal_strlit("Distinction(");
    reveal_strlit(")");
    reveal_strlit("empty batch: at least one transaction required");
    reveal_strlit("batch too large: ");
    reveal_strlit(" transactions (cap ");
    reveal_strlit("nonce mismatch at tx ");
    reveal_strlit(": expected ");
    reveal_strlit("tx ");
    reveal_strlit(" data too large: ");
    reveal_strlit(" bytes (cap ");
    reveal_strlit(": empty data (empty-data disallowed by design)");
    match e {
        ValidatorError::RootMismatch { expected, got } => {
            crate::distinction_hex::lemma_hex_chars_shape(expected@@);
            crate::distinction_hex::lemma_hex_chars_shape(got@@);
        },
        _ => {},
    }
}

/// The 8 little-endian bytes of a `u64`.
pub open spec fn u64_le_bytes(x: u64) -> Seq<u8> {
    Seq::new(8, |i: int| ((x >> (8 * i) as u64) & 0xff) as u8)
}

/// The bytes a transaction folds: its nonce (8 bytes, little-endian) then
/// its payload.
pub open spec fn action_bytes(tx: TransactionAction) -> Seq<u8> {
    u64_le_bytes(tx.nonce) + tx.data@
}

/// Folding a byte sequence: the first byte's fold, then each further
/// byte's fold synthesized onto the accumulator (first `n` bytes).
pub open spec fn bytes_chain(v: EngineView, bytes: Seq<u8>, n: nat) -> (EngineView, Distinction)
    decreases n,
{
    if n <= 1 {
        byte_fold(v, bytes[0], 8)
    } else {
        let (v1, acc) = bytes_chain(v, bytes, (n - 1) as nat);
        let (v2, d) = byte_fold(v1, bytes[n - 1], 8);
        synth_step(v2, acc, d)
    }
}

/// The state and tip of canonicalizing a transaction.
pub open spec fn action_fold(v: EngineView, tx: TransactionAction) -> (EngineView, Distinction) {
    bytes_chain(v, action_bytes(tx), action_bytes(tx).len())
}

/// A transaction's fold runs over all of its bytes: the nonce's 8
/// little-endian bytes, then every byte of the payload, in order.
pub proof fn lemma_action_bytes_cover_payload(v: EngineView, tx: TransactionAction)
    ensures
        action_bytes(tx).len() == 8 + tx.data@.len(),
        action_bytes(tx).take(8) == u64_le_bytes(tx.nonce),
        action_bytes(tx).skip(8) == tx.data@,
        action_fold(v, tx) == bytes_chain(v, action_bytes(tx), (8 + tx.data@.len()) as nat),
{
    assert(action_bytes(tx).take(8) =~= u64_le_bytes(tx.nonce));
    assert(action_bytes(tx).skip(8) =~= tx.data@);
}

/// The folded bytes determine the transaction: two transactions that fold
/// the same bytes carry the same nonce and the same whole payload.
pub proof fn lemma_action_bytes_injective(t1: TransactionAction, t2: TransactionAction)
    requires
        action_bytes(t1) == action_bytes(t2),
    ensures
        t1.nonce == t2.nonce,
        t1.data@ == t2.data@,
{
    let b1 = action_bytes(t1);
    let b2 = action_bytes(t2);
    assert(t1.data@ =~= b1.skip(8));
    assert(t2.data@ =~= b2.skip(8));
    let x = t1.nonce;
    let y = t2.nonce;
    assert(forall|k: int| 0 <= k < 8 ==> #[trigger] b1[k] == u64_le_bytes(x)[k]);
    assert(forall|k: int| 0 <= k < 8 ==> #[trigger] b2[k] == u64_le_bytes(y)[k]);
    assert(b1[0] == b2[0] && b1[1] == b2[1] && b1[2] == b2[2] && b1[3] == b2[3]);
    assert(b1[4] == b2[4] && b1[5] == b2[5] && b1[6] == b2[6] && b1[7] == b2[7]);
    assert(x == y) by (bit_vector)
        requires
            ((x >> 0u64) & 0xff) as u8 == ((y >> 0u64) & 0xff) as u8,
            ((x >> 8u64) & 0xff) as u8 == ((y >> 8u64) & 0xff) as u8,
            ((x >> 16u64) & 0xff) as u8 == ((y >> 16u64) & 0xff) as u8,
            ((x >> 24u64) & 0xff) as u8 == ((y >> 24u64) & 0xff) as u8,
            ((x >> 32u64) & 0xff) as u8 == ((y >> 32u64) & 0xff) as u8,
            ((x >> 40u64) & 0xff) as u8 == ((y >> 40u64) & 0xff) as u8,
            ((x >> 48u64) & 0xff) as u8 == ((y >> 48u64) & 0xff) as u8,
            ((x >> 56u64) & 0xff) as u8 == ((y >> 56u64) & 0xff) as u8,
    ;
}

/// Fold nonce then data bytes into a distinction; every intermediate is
/// registered in `engine`.
fn canonicalize_action(action: &TransactionAction, engine: &mut DistinctionEngine) -> (d: Distinction)
    requires
        old(engine).wf(),
    ensures
        final(engine).wf(),
        (final(engine)@, d) == action_fold(old(engine)@, *action),
        final(engine)@.contains_key(d@),
        view_extends(old(engine)@, final(engine)@),
{
    let ghost v0 = engine@;
    let ghost all = action_bytes(*action);
    let mut nonce_bytes = [0u8; 8];
    for k in 0..8
        invariant
            forall|j: int| 0 <= j < k ==> nonce_bytes[j] == u64_le_bytes(action.nonce)[j],
    {
        nonce_bytes[k] = ((action.nonce >> (8 * k) as u64) & 0xff) as u8;
    }
    let mut acc = ByteMapping::map_byte_to_distinction(nonce_bytes[0], engine);
    let mut i: usize = 1;
    while i < 8
        invariant
            engine.wf(),
            1 <= i <= 8,
            all == action_bytes(*action),
            forall|j: int| 0 <= j < 8 ==> nonce_bytes[j] == all[j],
            (engine@, acc) == bytes_chain(v0, all, i as nat),
            engine@.contains_key(acc@),
            view_extends(v0, engine@),
        decreases 8 - i,
    {
        let ghost v1 = engine@;
        let d = ByteMapping::map_byte_to_distinction(nonce_bytes[i], engine);
        proof {
            engine.lemma_wf_view();
            lemma_synth_view(engine@, acc, d);
        }
        acc = engine.synthesize(acc, d);
        i = i + 1;
    }
    let mut j: usize = 0;
    while j < action.data.len()
        invariant
            engine.wf(),
            0 <= j <= action.data@.len(),
            all == action_bytes(*action),
            (engine@, acc) == bytes_chain(v0, all, (8 + j) as nat),
            engine@.contains_key(acc@),
            view_extends(v0, engine@),
        decreases action.data@.len() - j,
    {
        assert(all[8 + j] == action.data@[j as int]);
        let d = ByteMapping::map_byte_to_distinction(action.data[j], engine);
        proof {
            engine.lemma_wf_view();
            lemma_synth_view(engine@, acc, d);
        }
        acc = engine.synthesize(acc, d);
        j = j + 1;
    }
    acc
}

impl Canonicalizable for TransactionAction {
    open spec fn spec_canonical(&self, v: EngineView) -> (EngineView, Distinction) {
        action_fold(v, *self)
    }

    fn to_canonical_structure(self, engine: &mut DistinctionEngine) -> (d: Distinction) {
        canonicalize_action(&self, engine)
    }
}

/// The error of the transaction at position `i`, expecting `expected` as
/// its nonce: nonce first, then empty data, then oversized data.
pub open spec fn tx_error(tx: TransactionAction, i: int, expected: u64) -> Option<ValidatorError> {
    if tx.nonce != expected {
        Some(ValidatorError::NonceMismatch { tx_index: i as usize, expected, got: tx.nonce })
    } else if tx.data@.len() == 0 {
        Some(ValidatorError::EmptyData { tx_index: i as usize })
    } else if tx.data@.len() > MAX_DATA_LEN {
        Some(ValidatorError::DataTooLarge { tx_index: i as usize, got: tx.data@.len() as usize, cap: MAX_DATA_LEN })
    } else {
        None
    }
}

/// `expected` advanced by `n` with wrapping arithmetic.
pub open spec fn nonce_after(expected: u64, n: nat) -> u64
    decreases n,
{
    if n == 0 {
        expected
    } else {
        vstd::wrapping::u64_specs::wrapping_add(nonce_after(expected, (n - 1) as nat), 1)
    }
}

/// The first transaction error at or after position `i`, transaction `k`
/// expecting nonce `nonce_after(expected, k)`.
pub open spec fn first_tx_error(txs: Seq<TransactionAction>, i: nat, expected: u64) -> Option<ValidatorError>
    decreases txs.len() - i,
{
    if i >= txs.len() {
        None
    } else {
        match tx_error(txs[i as int], i as int, nonce_after(expected, i)) {
            Some(e) => Some(e),
            None => first_tx_error(txs, i + 1, expected),
        }
    }
}

/// Why a validator at `(root, expected)` rejects `batch`, if it does: root
/// mismatch, then empty batch, then oversized batch, then the first
/// transaction error.
pub open spec fn batch_error(root: Distinction, expected: u64, batch: TransactionBatch) -> Option<
    ValidatorError,
> {
    if batch.previous_root != root {
        Some(ValidatorError::RootMismatch { expected: root, got: batch.previous_root })
    } else if batch.transactions@.len() == 0 {
        Some(ValidatorError::EmptyBatch)
    } else if batch.transactions@.len() > MAX_TRANSACTIONS_PER_BATCH {
        Some(ValidatorError::BatchTooLarge {
            got: batch.transactions@.len() as usize,
            cap: MAX_TRANSACTIONS_PER_BATCH,
        })
    } else {
        first_tx_error(batch.transactions@, 0, expected)
    }
}

/// Committing the first `n` transactions from `root`: each transaction's
/// fold, then its tip synthesized onto the running root.
pub open spec fn commit_chain(v: EngineView, root: Distinction, txs: Seq<TransactionAction>, n: nat) -> (
    EngineView,
    Distinction,
)
    decreases n,
{
    if n == 0 {
        (v, root)
    } else {
        let (v1, cur) = commit_chain(v, root, txs, (n - 1) as nat);
        let (v2, d) = action_fold(v1, txs[n - 1]);
        synth_step(v2, cur, d)
    }
}

/// The tip of a byte chain does not depend on the engine state it runs on.
pub proof fn lemma_bytes_chain_tip(v: EngineView, w: EngineView, bytes: Seq<u8>, n: nat)
    ensures
        bytes_chain(v, bytes, n).1 == bytes_chain(w, bytes, n).1,
    decreases n,
{
    if n <= 1 {
        lemma_byte_fold_tip(v, w, bytes[0], 8);
    } else {
        lemma_bytes_chain_tip(v, w, bytes, (n - 1) as nat);
        let v1 = bytes_chain(v, bytes, (n - 1) as nat).0;
        let w1 = bytes_chain(w, bytes, (n - 1) as nat).0;
        lemma_byte_fold_tip(v1, w1, bytes[n - 1], 8);
    }
}

/// Validation is deterministic: the root that committing transactions
/// onto `root` yields depends only on `root` and the transactions, never
/// on what else the engine holds, so every node that applies the same
/// batch to the same root reaches the same new root.
pub proof fn lemma_commit_chain_tip(v: EngineView, w: EngineView, root: Distinction, txs: Seq<TransactionAction>, n: nat)
    ensures
        commit_chain(v, root, txs, n).1 == commit_chain(w, root, txs, n).1,
    decreases n,
{
    if n > 0 {
        lemma_commit_chain_tip(v, w, root, txs, (n - 1) as nat);
        let v1 = commit_chain(v, root, txs, (n - 1) as nat).0;
        let w1 = commit_chain(w, root, txs, (n - 1) as nat).0;
        let bytes = action_bytes(txs[n - 1]);
        lemma_bytes_chain_tip(v1, w1, bytes, bytes.len());
    }
}

/// Chain-fold transactions onto `root`: synthesize the running root with
/// each transaction's canonical tip, in order.
pub(crate) fn fold_transactions(engine: &mut DistinctionEngine, root: Distinction, txs: &Vec<TransactionAction>) -> (d:
    Distinction)
    requires
        old(engine).wf(),
        old(engine)@.contains_key(root@),
    ensures
        final(engine).wf(),
        (final(engine)@, d) == commit_chain(old(engine)@, root, txs@, txs@.len()),
        final(engine)@.contains_key(d@),
        view_extends(old(engine)@, final(engine)@),
{
    let ghost v0 = engine@;
    let mut current = root;
    let mut k: usize = 0;
    while k < txs.len()
        invariant
            engine.wf(),
            0 <= k <= txs@.len(),
            (engine@, current) == commit_chain(v0, root, txs@, k as nat),
            engine@.contains_key(current@),
            view_extends(v0, engine@),
        decreases txs@.len() - k,
    {
        let ghost v1 = engine@;
        let tx_d = canonicalize_action(&txs[k], engine);
        proof {
            engine.lemma_wf_view();
            lemma_synth_view(engine@, current, tx_d);
        }
        current = engine.synthesize(current, tx_d);
        k = k + 1;
    }
    current
}

/// Advances a local causal chain by consuming batches of transactions.
pub struct ConsensusValidator {
    local_root: Distinction,
    expected_nonce: u64,
}

impl View for ConsensusValidator {
    type V = (Distinction, u64);

    closed spec fn view(&self) -> (Distinction, u64) {
        (self.local_root, self.expected_nonce)
    }
}

impl ConsensusValidator {
    /// Fresh validator rooted at the engine's `d0` expecting nonce 0.
    pub fn new(engine: &DistinctionEngine) -> (v: ConsensusValidator)
        requires
            engine.wf(),
        ensures
            v@ == (crate::distinction::spec_d0(), 0u64),
    {
        ConsensusValidator { local_root: engine.d0(), expected_nonce: 0 }
    }

    /// The nonce the next transaction must carry.
    pub fn expected_nonce(&self) -> (n: u64)
        ensures
            n == self@.1,
    {
        self.expected_nonce
    }

    /// The validator's current local root.
    pub fn state_root_id(&self) -> (d: Distinction)
        ensures
            d == self@.0,
    {
        self.local_root
    }

    /// Atomic restore of both root and nonce.
    pub fn restore_state(&mut self, root: Distinction, nonce: u64)
        ensures
            final(self)@ == (root, nonce),
    {
        self.local_root = root;
        self.expected_nonce = nonce;
    }

    /// Validate a batch and, on success, advance the local root. A
    /// rejected batch changes neither the engine nor the validator.
    pub fn validate_batch(&mut self, engine: &mut DistinctionEngine, batch: &TransactionBatch) -> (r:
        Result<Distinction, ValidatorError>)
        requires
            old(engine).wf(),
            batch_error(old(self)@.0, old(self)@.1, *batch) is None ==> old(engine)@.contains_key(
                old(self)@.0@,
            ),
        ensures
            final(engine).wf(),
            r is Err <==> batch_error(old(self)@.0, old(self)@.1, *batch) is Some,
            r matches Err(e) ==> batch_error(old(self)@.0, old(self)@.1, *batch) == Some(e)
                && final(engine)@ == old(engine)@ && final(self)@ == old(self)@,
            r matches Ok(d) ==> (final(engine)@, d) == commit_chain(
                old(engine)@,
                old(self)@.0,
                batch.transactions@,
                batch.transactions@.len(),
            ) && final(self)@ == (d, nonce_after(old(self)@.1, batch.transactions@.len())),
    {
        // Pre-validation: pure inspection, no engine mutation.
        if !batch.previous_root.same_as(&self.local_root) {
            return Err(ValidatorError::RootMismatch { expected: self.local_root, got: batch.previous_root });
        }
        if batch.transactions.len() == 0 {
            return Err(ValidatorError::EmptyBatch);
        }
        if batch.transactions.len() > MAX_TRANSACTIONS_PER_BATCH {
            return Err(ValidatorError::BatchTooLarge {
                got: batch.transactions.len(),
                cap: MAX_TRANSACTIONS_PER_BATCH,
            });
        }
        let ghost txs = batch.transactions@;
        let mut expected = self.expected_nonce;
        let mut i: usize = 0;
        #[verifier::loop_isolation(false)]
        while i < batch.transactions.len()
            invariant
                txs == batch.transactions@,
                0 <= i <= txs.len(),
                expected == nonce_after(self@.1, i as nat),
                first_tx_error(txs, 0, self@.1) == first_tx_error(txs, i as nat, self@.1),
            decreases txs.len() - i,
        {
            let tx = &batch.transactions[i];
            if tx.nonce != expected {
                return Err(ValidatorError::NonceMismatch { tx_index: i, expected, got: tx.nonce });
            }
            if tx.data.len() == 0 {
                return Err(ValidatorError::EmptyData { tx_index: i });
            }
            if tx.data.len() > MAX_DATA_LEN {
                return Err(ValidatorError::DataTooLarge { tx_index: i, got: tx.data.len(), cap: MAX_DATA_LEN });
            }
            expected = expected.wrapping_add(1);
            i = i + 1;
        }

        // Commit: every invariant holds, so the syntheses cannot fail.
        let current = fold_transactions(engine, self.local_root, &batch.transactions);
        self.local_root = current;
        self.expected_nonce = expected;
        Ok(current)
    }
}

impl LocalCausalAgent for ConsensusValidator {
    type ActionData = TransactionAction;

    open spec fn spec_root(&self) -> Distinction {
        self@.0
    }

    fn get_current_root(&self) -> (d: Distinction) {
        self.local_root
    }

    fn update_local_root(&mut self, new_root: Distinction) {
        self.local_root = new_root;
    }
}

} // verus!
