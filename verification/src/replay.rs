//! Replay: rebuild an engine from a parentage snapshot, and the children
//! index that inverts `parents_of`.

use vstd::prelude::*;
use vstd::string::StringExecFns;
use crate::text::{decimal_chars, debug_chars, push_decimal};
use crate::distinction::{Distinction, ParentPair, child_of, d0_bytes, d1_bytes, lemma_bytes_lt_asym, bytes_lt};
use crate::engine::{DistinctionEngine, EngineView, synth_view, lemma_synth_view, view_wf, view_extends, is_ranked, is_parentage_of, parent_lo, parent_hi};

verus! {

broadcast use crate::distinction::group_distinction;

/// Reasons [`replay_topological`] can fail.
#[derive(Debug, Clone, Copy, PartialEq, Eq)]
pub enum ReplayError {
    /// No entry could apply on the first pass: the input never roots in
    /// the primordials.
    MissingPrimordial,
    /// Progress stalled after partial reconstruction; carries the number
    /// of unresolved entries.
    Unreachable(usize),
    /// An entry claims a child that its parents do not synthesize to.
    Mismatch {
        /// The child the entry claims.
        child: Distinction,
        /// Same as `child`.
        expected: Distinction,
        /// What synthesizing the entry's parents produced.
        actual: Distinction,
    },
}

/// The display message of a replay error.
pub open spec fn replay_message(e: ReplayError) -> Seq<char> {
    match e {
        ReplayError::MissingPrimordial => "no parentage entry roots in primordials: input cannot bootstrap from d₀/d₁"@,
        ReplayError::Unreachable(n) => "corrupted parentage: "@ + decimal_chars(n as nat)
            + " entries unresolved (cycle or missing intermediate)"@,
        ReplayError::Mismatch { child, expected, actual } => "content-address mismatch: expected "@ + debug_chars(
            expected,
        ) + ", got "@ + debug_chars(actual),
    }
}

impl ReplayError {
    /// The display message.
    pub fn to_display_string(&self) -> (s: String)
        ensures
            s@ == replay_message(*self),
    {
        match self {
            ReplayError::MissingPrimordial => String::from_str(
                "no parentage entry roots in primordials: input cannot bootstrap from d₀/d₁",
            ),
            ReplayError::Unreachable(n) => {
                let mut s = String::from_str("corrupted parentage: ");
                push_decimal(&mut s, *n as u64);
                s.append(" entries unresolved (cycle or missing intermediate)");
                s
            },
            ReplayError::Mismatch { child, expected, actual } => {
                let mut s = String::from_str("content-address mismatch: expected ");
                let a = expected.to_debug_string();
                s.append(a.as_str());
                s.append(", got ");
                let b = actual.to_debug_string();
                s.append(b.as_str());
                s
            },
        }
    }
}

/// A parentage entry: a child and its claimed parents.
pub type Entry = (Distinction, ParentPair);

/// The state of a fresh engine: the two primordials, without parents.
pub open spec fn fresh_view() -> EngineView {
    Map::<[u8; 16], Option<ParentPair>>::empty().insert(d0_bytes(), None).insert(d1_bytes(), None)
}

/// One pass over `p`, left to right, from state `v`: an entry whose
/// parents are both registered is applied (synthesized) and dropped, and
/// a mismatch between its claimed child and the synthesized one is
/// recorded (the last one wins); any other entry is kept.
pub open spec fn replay_pass(v: EngineView, p: Seq<Entry>) -> (EngineView, Seq<Entry>, Option<ReplayError>)
    decreases p.len(),
{
    if p.len() == 0 {
        (v, Seq::empty(), None)
    } else {
        let (v1, kept, err) = replay_pass(v, p.drop_last());
        let (c, (a, b)) = p.last();
        if v1.contains_key(a@) && v1.contains_key(b@) {
            let actual = child_of(a, b);
            (
                synth_view(v1, a, b),
                kept,
                if actual != c {
                    Some(ReplayError::Mismatch { child: c, expected: c, actual })
                } else {
                    err
                },
            )
        } else {
            (v1, kept.push(p.last()), err)
        }
    }
}

/// Passes repeat until nothing is pending (success), a pass records a
/// mismatch, or a pass makes no progress: `MissingPrimordial` when nothing
/// was ever applied, `Unreachable(pending)` otherwise.
pub open spec fn replay_run(v: EngineView, p: Seq<Entry>, initial: nat) -> Result<EngineView, ReplayError>
    decreases p.len(),
{
    if p.len() == 0 {
        Ok(v)
    } else {
        let (v1, kept, err) = replay_pass(v, p);
        match err {
            Some(e) => Err(e),
            None => if kept.len() >= p.len() {
                if kept.len() == initial {
                    Err(ReplayError::MissingPrimordial)
                } else {
                    Err(ReplayError::Unreachable(kept.len() as usize))
                }
            } else {
                replay_run(v1, kept, initial)
            },
        }
    }
}

/// A pass keeps at most what it was given and keeps the state well formed.
pub proof fn lemma_pass_shape(v: EngineView, p: Seq<Entry>)
    requires
        view_wf(v),
    ensures
        replay_pass(v, p).1.len() <= p.len(),
        view_wf(replay_pass(v, p).0),
    decreases p.len(),
{
    if p.len() > 0 {
        lemma_pass_shape(v, p.drop_last());
        let (v1, kept, err) = replay_pass(v, p.drop_last());
        let (c, (a, b)) = p.last();
        if v1.contains_key(a@) && v1.contains_key(b@) {
            lemma_synth_view(v1, a, b);
        }
    }
}

/// `p` holds the entry `e`.
#[verifier::opaque]
pub open spec fn lists(p: Seq<Entry>, e: Entry) -> bool {
    exists|i: int| 0 <= i < p.len() && p[i] == e
}

/// `p` holds an entry whose child has the bytes `k`.
#[verifier::opaque]
pub open spec fn lists_child(p: Seq<Entry>, k: [u8; 16]) -> bool {
    exists|i: int| 0 <= i < p.len() && p[i].0@ == k
}

/// The pending entries `p` are target `s`'s parentage of nodes that the
/// partial state `v` (itself part of `s`) lacks, each child once.
pub open spec fn entries_fit(s: EngineView, v: EngineView, p: Seq<Entry>) -> bool {
    &&& view_extends(v, s)
    &&& forall|i: int| #![trigger p[i]] 0 <= i < p.len() ==> s.contains_key(p[i].0@) && s[p[i].0@] == Some(p[i].1)
        && !v.contains_key(p[i].0@)
    &&& forall|i: int, j: int| 0 <= i < p.len() && 0 <= j < p.len() && i != j ==> #[trigger] p[i].0 != #[trigger] p[j].0
}

/// Ready to finish: the entries fit and every target node is in `v` or
/// pending.
pub open spec fn replay_ready(s: EngineView, v: EngineView, p: Seq<Entry>) -> bool {
    &&& entries_fit(s, v, p)
    &&& forall|k: [u8; 16]| #[trigger] s.contains_key(k) ==> v.contains_key(k) || lists_child(p, k)
}

/// Some entry of `p` has both its parents registered in `v`.
pub open spec fn some_entry_ready(v: EngineView, p: Seq<Entry>) -> bool {
    exists|i: int| #![trigger p[i]] 0 <= i < p.len() && v.contains_key(p[i].1.0@) && v.contains_key(p[i].1.1@)
}

/// What one pass over fitting entries yields.
pub open spec fn pass_result_ok(s: EngineView, v: EngineView, p: Seq<Entry>) -> bool {
    let (v1, kept, err) = replay_pass(v, p);
    &&& err is None
    &&& view_extends(v, v1)
    &&& view_extends(v1, s)
    &&& forall|k: [u8; 16]| #[trigger] v1.contains_key(k) ==> v.contains_key(k) || lists_child(p, k)
    &&& forall|j: int| #![trigger kept[j]] 0 <= j < kept.len() ==> !v1.contains_key(kept[j].0@) && lists(p, kept[j])
    &&& forall|i: int| #![trigger p[i]] 0 <= i < p.len() ==> v1.contains_key(p[i].0@) || lists(kept, p[i])
    &&& forall|i: int, j: int|
        0 <= i < kept.len() && 0 <= j < kept.len() && i != j ==> #[trigger] kept[i].0 != #[trigger] kept[j].0
    &&& kept.len() <= p.len()
    &&& some_entry_ready(v, p) ==> kept.len() < p.len()
}

/// The target's structural shape, kept folded inside the replay proofs
/// (its parent-chain quantifier would otherwise unfold without end).
#[verifier::opaque]
spec fn wf_target(s: EngineView) -> bool {
    view_wf(s)
}

/// What the target's shape says of one node with parents.
proof fn lemma_target_entry(s: EngineView, k: [u8; 16])
    requires
        wf_target(s),
        s.contains_key(k),
        s[k] is Some,
    ensures
        k != d0_bytes() && k != d1_bytes(),
        s.contains_key(parent_lo(s[k])@),
        s.contains_key(parent_hi(s[k])@),
        bytes_lt(parent_lo(s[k])@@, parent_hi(s[k])@@),
        child_of(parent_lo(s[k]), parent_hi(s[k]))@ == k,
{
    reveal(wf_target);
}

/// Applying a fitting entry adds exactly that entry's child with its
/// recorded parents, and synthesizes the child the entry claims.
proof fn lemma_apply_fitting(s: EngineView, v: EngineView, c: Distinction, a: Distinction, b: Distinction)
    requires
        wf_target(s),
        s.contains_key(c@),
        s[c@] == Some::<ParentPair>((a, b)),
        !v.contains_key(c@),
    ensures
        child_of(a, b) == c,
        synth_view(v, a, b) == v.insert(c@, Some::<ParentPair>((a, b))),
{
    lemma_target_entry(s, c@);
    lemma_bytes_lt_asym(a@@, b@@);
    assert(a != b);
}

/// Entries of a prefix are entries of the whole.
proof fn lemma_lists_prefix(p: Seq<Entry>, e: Entry)
    requires
        p.len() > 0,
        lists(p.drop_last(), e),
    ensures
        lists(p, e),
{
    reveal(lists);
    let i = choose|i: int| 0 <= i < p.drop_last().len() && p.drop_last()[i] == e;
    assert(p[i] == e);
}

/// Children of a prefix are children of the whole.
proof fn lemma_lists_child_prefix(p: Seq<Entry>, k: [u8; 16])
    requires
        p.len() > 0,
        lists_child(p.drop_last(), k),
    ensures
        lists_child(p, k),
{
    reveal(lists_child);
    let i = choose|i: int| 0 <= i < p.drop_last().len() && p.drop_last()[i].0@ == k;
    assert(p[i].0@ == k);
}

/// A child listed by a prefix differs from the last entry's child, when
/// children are unique.
proof fn lemma_prefix_child_not_last(p: Seq<Entry>, k: [u8; 16])
    requires
        p.len() > 0,
        lists_child(p.drop_last(), k),
        forall|i: int, j: int| 0 <= i < p.len() && 0 <= j < p.len() && i != j ==> #[trigger] p[i].0 != #[trigger] p[j].0,
    ensures
        k != p.last().0@,
{
    reveal(lists_child);
    let i = choose|i: int| 0 <= i < p.drop_last().len() && p.drop_last()[i].0@ == k;
    assert(p.drop_last()[i] == p[i]);
    assert(p[i].0 != p[p.len() - 1].0);
}

/// An entry listed by a prefix differs in its child from the last entry,
/// when children are unique.
proof fn lemma_prefix_entry_not_last(p: Seq<Entry>, e: Entry)
    requires
        p.len() > 0,
        lists(p.drop_last(), e),
        forall|i: int, j: int| 0 <= i < p.len() && 0 <= j < p.len() && i != j ==> #[trigger] p[i].0 != #[trigger] p[j].0,
    ensures
        e.0 != p.last().0,
{
    reveal(lists);
    let i = choose|i: int| 0 <= i < p.drop_last().len() && p.drop_last()[i] == e;
    assert(p.drop_last()[i] == p[i]);
    assert(p[i].0 != p[p.len() - 1].0);
}

/// The prefix of fitting entries fits.
proof fn lemma_fit_prefix(s: EngineView, v: EngineView, p: Seq<Entry>)
    requires
        p.len() > 0,
        entries_fit(s, v, p),
    ensures
        entries_fit(s, v, p.drop_last()),
{
    let q = p.drop_last();
    assert forall|i: int, j: int| 0 <= i < q.len() && 0 <= j < q.len() && i != j implies #[trigger] q[i].0
        != #[trigger] q[j].0 by {
        assert(q[i] == p[i] && q[j] == p[j]);
    }
    assert forall|i: int| #![trigger q[i]] 0 <= i < q.len() implies s.contains_key(q[i].0@) && s[q[i].0@]
        == Some(q[i].1) && !v.contains_key(q[i].0@) by {
        assert(q[i] == p[i]);
    }
}

/// The pass step when the last entry's parents are registered: it is
/// applied.
proof fn lemma_pass_step_apply(s: EngineView, v: EngineView, p: Seq<Entry>)
    requires
        wf_target(s),
        p.len() > 0,
        entries_fit(s, v, p),
        pass_result_ok(s, v, p.drop_last()),
        replay_pass(v, p.drop_last()).0.contains_key(p.last().1.0@),
        replay_pass(v, p.drop_last()).0.contains_key(p.last().1.1@),
    ensures
        pass_result_ok(s, v, p),
{
    let q = p.drop_last();
    let (v1, kept, err) = replay_pass(v, q);
    let (c, (a, b)) = p.last();
    let n = p.len() - 1;
    assert(p[n] == p.last());
    assert(!v1.contains_key(c@)) by {
        if v1.contains_key(c@) && !v.contains_key(c@) {
            lemma_prefix_child_not_last(p, c@);
        }
    }
    lemma_apply_fitting(s, v1, c, a, b);
    let v2 = v1.insert(c@, Some::<ParentPair>((a, b)));
    assert(replay_pass(v, p) == (v2, kept, err));
    assert forall|k: [u8; 16]| #[trigger] v2.contains_key(k) implies v.contains_key(k) || lists_child(p, k) by {
        if k == c@ {
            reveal(lists_child);
            assert(p[n].0@ == k);
        } else if !v.contains_key(k) {
            lemma_lists_child_prefix(p, k);
        }
    }
    assert forall|j: int| #![trigger kept[j]] 0 <= j < kept.len() implies !v2.contains_key(kept[j].0@) && lists(
        p,
        kept[j],
    ) by {
        lemma_lists_prefix(p, kept[j]);
        lemma_prefix_entry_not_last(p, kept[j]);
    }
    assert forall|i: int| #![trigger p[i]] 0 <= i < p.len() implies v2.contains_key(p[i].0@) || lists(kept, p[i]) by {
        if i < n {
            assert(q[i] == p[i]);
        }
    }
    if some_entry_ready(v, p) {
        assert(kept.len() <= q.len());
    }
}

/// The pass step when a parent of the last entry is missing: it is kept.
proof fn lemma_pass_step_keep(s: EngineView, v: EngineView, p: Seq<Entry>)
    requires
        wf_target(s),
        p.len() > 0,
        entries_fit(s, v, p),
        pass_result_ok(s, v, p.drop_last()),
        !(replay_pass(v, p.drop_last()).0.contains_key(p.last().1.0@) && replay_pass(v, p.drop_last()).0.contains_key(
            p.last().1.1@,
        )),
    ensures
        pass_result_ok(s, v, p),
{
    let q = p.drop_last();
    let (v1, kept, err) = replay_pass(v, q);
    let (c, (a, b)) = p.last();
    let n = p.len() - 1;
    assert(p[n] == p.last());
    assert(!v1.contains_key(c@)) by {
        if v1.contains_key(c@) && !v.contains_key(c@) {
            lemma_prefix_child_not_last(p, c@);
        }
    }
    let k2 = kept.push(p.last());
    assert(replay_pass(v, p) == (v1, k2, err));
    assert forall|k: [u8; 16]| #[trigger] v1.contains_key(k) implies v.contains_key(k) || lists_child(p, k) by {
        if !v.contains_key(k) {
            lemma_lists_child_prefix(p, k);
        }
    }
    assert forall|j: int| #![trigger k2[j]] 0 <= j < k2.len() implies !v1.contains_key(k2[j].0@) && lists(p, k2[j]) by {
        if j < kept.len() {
            assert(k2[j] == kept[j]);
            lemma_lists_prefix(p, kept[j]);
        } else {
            reveal(lists);
            assert(k2[j] == p[n]);
        }
    }
    assert forall|i: int| #![trigger p[i]] 0 <= i < p.len() implies v1.contains_key(p[i].0@) || lists(k2, p[i]) by {
        reveal(lists);
        if i < n {
            assert(q[i] == p[i]);
            if !v1.contains_key(p[i].0@) {
                assert(lists(kept, q[i]));
                let j = choose|j: int| 0 <= j < kept.len() && kept[j] == q[i];
                assert(k2[j] == kept[j]);
            }
        } else {
            assert(k2[kept.len() as int] == p[n]);
        }
    }
    assert forall|i: int, j: int|
        0 <= i < k2.len() && 0 <= j < k2.len() && i != j implies #[trigger] k2[i].0 != #[trigger] k2[j].0 by {
        if i == kept.len() || j == kept.len() {
            let o = if i == kept.len() { j } else { i };
            assert(k2[o] == kept[o]);
            lemma_prefix_entry_not_last(p, kept[o]);
        } else {
            assert(k2[i] == kept[i] && k2[j] == kept[j]);
        }
    }
    if some_entry_ready(v, p) {
        let i = choose|i: int| #![trigger p[i]] 0 <= i < p.len() && v.contains_key(p[i].1.0@) && v.contains_key(
            p[i].1.1@,
        );
        assert(i != n);
        assert(q[i] == p[i]);
        assert(some_entry_ready(v, q));
    }
}

/// One pass over fitting entries: no mismatch, the state grows within the
/// target, each entry is either applied or kept (kept ones are still
/// missing), and the pass applies something whenever some entry had both
/// parents registered at its start.
proof fn lemma_pass_fits(s: EngineView, v: EngineView, p: Seq<Entry>)
    requires
        wf_target(s),
        entries_fit(s, v, p),
    ensures
        pass_result_ok(s, v, p),
    decreases p.len(),
{
    if p.len() > 0 {
        lemma_fit_prefix(s, v, p);
        lemma_pass_fits(s, v, p.drop_last());
        let v1 = replay_pass(v, p.drop_last()).0;
        if v1.contains_key(p.last().1.0@) && v1.contains_key(p.last().1.1@) {
            lemma_pass_step_apply(s, v, p);
        } else {
            lemma_pass_step_keep(s, v, p);
        }
    } else {
        assert(replay_pass(v, p) == (v, Seq::<Entry>::empty(), None::<ReplayError>));
    }
}

/// Among the pending entries, one whose child ranks lowest.
proof fn lemma_min_rank(p: Seq<Entry>, rk: Map<[u8; 16], nat>) -> (m: int)
    requires
        p.len() > 0,
    ensures
        0 <= m < p.len(),
        forall|i: int| #![trigger p[i]] 0 <= i < p.len() ==> rk[p[m].0@] <= rk[p[i].0@],
    decreases p.len(),
{
    if p.len() == 1 {
        0
    } else {
        let q = p.drop_last();
        let m0 = lemma_min_rank(q, rk);
        assert forall|i: int| 0 <= i < q.len() implies #[trigger] q[i] == p[i] by {}
        let n = p.len() - 1;
        if rk[p[n].0@] < rk[p[m0].0@] {
            assert forall|i: int| #![trigger p[i]] 0 <= i < p.len() implies rk[p[n].0@] <= rk[p[i].0@] by {
                if i < n {
                    assert(q[i] == p[i]);
                }
            }
            n
        } else {
            assert forall|i: int| #![trigger p[i]] 0 <= i < p.len() implies rk[p[m0].0@] <= rk[p[i].0@] by {
                if i < n {
                    assert(q[i] == p[i]);
                }
            }
            m0
        }
    }
}

/// In a ready state with something pending, the lowest-ranked pending
/// entry has both parents registered.
proof fn lemma_lowest_ready(s: EngineView, rk: Map<[u8; 16], nat>, v: EngineView, p: Seq<Entry>)
    requires
        wf_target(s),
        is_ranked(s, rk),
        replay_ready(s, v, p),
        p.len() > 0,
    ensures
        some_entry_ready(v, p),
{
    let m = lemma_min_rank(p, rk);
    let (c, (a, b)) = p[m];
    assert(s[c@] == Some::<ParentPair>((a, b)));
    lemma_target_entry(s, c@);
    assert(v.contains_key(a@)) by {
        if !v.contains_key(a@) {
            reveal(lists_child);
            let i = choose|i: int| 0 <= i < p.len() && p[i].0@ == a@;
            assert(rk[p[m].0@] <= rk[p[i].0@]);
        }
    }
    assert(v.contains_key(b@)) by {
        if !v.contains_key(b@) {
            reveal(lists_child);
            let i = choose|i: int| 0 <= i < p.len() && p[i].0@ == b@;
            assert(rk[p[m].0@] <= rk[p[i].0@]);
        }
    }
}

/// From a ready state, the remaining passes reach exactly the target.
proof fn lemma_run_ready(s: EngineView, rk: Map<[u8; 16], nat>, v: EngineView, p: Seq<Entry>, initial: nat)
    requires
        wf_target(s),
        is_ranked(s, rk),
        replay_ready(s, v, p),
    ensures
        replay_run(v, p, initial) == Ok::<EngineView, ReplayError>(s),
    decreases p.len(),
{
    if p.len() == 0 {
        assert forall|k: [u8; 16]| #[trigger] s.contains_key(k) implies v.contains_key(k) by {
            reveal(lists_child);
        }
        assert(v =~= s);
    } else {
        lemma_lowest_ready(s, rk, v, p);
        lemma_pass_fits(s, v, p);
        let (v1, kept, err) = replay_pass(v, p);
        assert(replay_ready(s, v1, kept)) by {
            assert forall|j: int| #![trigger kept[j]] 0 <= j < kept.len() implies s.contains_key(kept[j].0@)
                && s[kept[j].0@] == Some(kept[j].1) && !v1.contains_key(kept[j].0@) by {
                reveal(lists);
                let i = choose|i: int| 0 <= i < p.len() && p[i] == kept[j];
                assert(p[i] == kept[j]);
            }
            assert forall|k: [u8; 16]| #[trigger] s.contains_key(k) implies v1.contains_key(k) || lists_child(kept, k) by {
                if !v.contains_key(k) {
                    reveal(lists_child);
                    let i = choose|i: int| 0 <= i < p.len() && p[i].0@ == k;
                    if !v1.contains_key(p[i].0@) {
                        reveal(lists);
                        assert(lists(kept, p[i]));
                        let j = choose|j: int| 0 <= j < kept.len() && kept[j] == p[i];
                        assert(kept[j].0@ == k);
                    }
                }
            }
        }
        lemma_run_ready(s, rk, v1, kept, initial);
    }
}

/// Replay round trip (Laws 8 and 9): the parentage of a well-formed
/// engine, listed in any order, replays on a fresh engine to exactly that
/// engine's state.
pub proof fn lemma_replay_round_trip(src: &DistinctionEngine, p: Seq<Entry>)
    requires
        src.wf(),
        is_parentage_of(src@, p),
    ensures
        replay_run(fresh_view(), p, p.len()) == Ok::<EngineView, ReplayError>(src@),
{
    let s = src@;
    src.lemma_wf_view();
    src.lemma_ranked();
    let rk = choose|rk: Map<[u8; 16], nat>| is_ranked(s, rk);
    assert(wf_target(s)) by {
        reveal(wf_target);
    }
    assert(replay_ready(s, fresh_view(), p)) by {
        assert forall|i: int| #![trigger p[i]] 0 <= i < p.len() implies s.contains_key(p[i].0@) && s[p[i].0@]
            == Some(p[i].1) && !fresh_view().contains_key(p[i].0@) by {}
        assert forall|k: [u8; 16]| #[trigger] s.contains_key(k) implies fresh_view().contains_key(k) || lists_child(
            p,
            k,
        ) by {
            if k != d0_bytes() && k != d1_bytes() {
                assert(s[k] is Some);
                reveal(lists_child);
            }
        }
    }
    lemma_run_ready(s, rk, fresh_view(), p, p.len());
}

/// Rebuild a fresh engine from a parentage snapshot by repeated passes
/// (see [`replay_run`]).
pub fn replay_topological(parentage: Vec<Entry>) -> (r: Result<DistinctionEngine, ReplayError>)
    ensures
        r matches Ok(e) ==> e.wf() && replay_run(fresh_view(), parentage@, parentage@.len()) == Ok::<
            EngineView,
            ReplayError,
        >(e@),
        r matches Err(x) ==> replay_run(fresh_view(), parentage@, parentage@.len()) == Err::<
            EngineView,
            ReplayError,
        >(x),
{
    let mut engine = DistinctionEngine::new();
    let ghost all = parentage@;
    let mut pending = parentage;
    let initial_len = pending.len();
    while pending.len() > 0
        invariant
            engine.wf(),
            initial_len == all.len(),
            all == parentage@,
            replay_run(fresh_view(), all, all.len()) == replay_run(engine@, pending@, all.len()),
        decreases pending@.len(),
    {
        let before = pending.len();
        let ghost v_start = engine@;
        proof {
            engine.lemma_wf_view();
        }
        let mut err: Option<ReplayError> = None;
        let mut kept: Vec<Entry> = Vec::new();
        let mut i: usize = 0;
        while i < pending.len()
            invariant
                engine.wf(),
                0 <= i <= pending@.len(),
                (engine@, kept@, err) == replay_pass(v_start, pending@.take(i as int)),
                initial_len == all.len(),
                before == pending@.len(),
                view_wf(v_start),
                replay_run(fresh_view(), all, all.len()) == replay_run(v_start, pending@, all.len()),
            decreases pending@.len() - i,
        {
            let (child, (a, b)) = pending[i];
            proof {
                assert(pending@.take(i + 1).drop_last() =~= pending@.take(i as int));
            }
            if engine.has(a) && engine.has(b) {
                let result = engine.synthesize(a, b);
                if !result.same_as(&child) {
                    err = Some(ReplayError::Mismatch { child, expected: child, actual: result });
                }
            } else {
                kept.push(pending[i]);
            }
            i = i + 1;
        }
        proof {
            assert(pending@.take(pending@.len() as int) =~= pending@);
            lemma_pass_shape(v_start, pending@);
            assert((engine@, kept@, err) == replay_pass(v_start, pending@));
            assert(pending@.len() > 0);
            assert(replay_run(fresh_view(), all, all.len()) == replay_run(v_start, pending@, all.len()));
        }
        match err {
            Some(e) => {
                return Err(e);
            },
            None => {},
        }
        if kept.len() == before {
            if kept.len() == initial_len {
                return Err(ReplayError::MissingPrimordial);
            } else {
                return Err(ReplayError::Unreachable(kept.len()));
            }
        }
        pending = kept;
    }
    Ok(engine)
}

/// The children listed under parent `d` by an index built from `p`: for
/// each entry in order, the child once for each parent slot equal to `d`.
pub open spec fn index_children(p: Seq<Entry>, d: Distinction) -> Seq<Distinction>
    decreases p.len(),
{
    if p.len() == 0 {
        Seq::empty()
    } else {
        let (c, (a, b)) = p.last();
        index_children(p.drop_last(), d) + (if a == d {
            seq![c]
        } else {
            Seq::empty()
        }) + (if b == d {
            seq![c]
        } else {
            Seq::empty()
        })
    }
}

/// `d` occurs as a parent in one of the entries of `p`.
pub open spec fn is_indexed_parent(p: Seq<Entry>, d: Distinction) -> bool {
    exists|i: int| #![trigger p[i]] 0 <= i < p.len() && (p[i].1.0 == d || p[i].1.1 == d)
}

/// Materialize the inverse of `parents_of` over a parentage snapshot: one
/// entry per distinct parent, listing the children that name it (once per
/// parent slot, in input order). Parents appear in order of first
/// occurrence.
pub fn build_children_index(parentage: &[Entry]) -> (r: Vec<(Distinction, Vec<Distinction>)>)
    ensures
        forall|i: int, j: int|
            0 <= i < r@.len() && 0 <= j < r@.len() && i != j ==> #[trigger] r@[i].0 != #[trigger] r@[j].0,
        forall|i: int| #![trigger r@[i]] 0 <= i < r@.len() ==> r@[i].1@ == index_children(parentage@, r@[i].0)
            && is_indexed_parent(parentage@, r@[i].0),
        forall|d: Distinction| #[trigger] is_indexed_parent(parentage@, d) ==> exists|i: int|
            0 <= i < r@.len() && r@[i].0 == d,
{
    let parents = distinct_parents(parentage);
    let mut index: Vec<(Distinction, Vec<Distinction>)> = Vec::new();
    let mut k: usize = 0;
    while k < parents.len()
        invariant
            0 <= k <= parents@.len(),
            index@.len() == k,
            forall|i: int| #![trigger index@[i]] 0 <= i < k ==> index@[i].0 == parents@[i]
                && index@[i].1@ == index_children(parentage@, parents@[i]),
        decreases parents@.len() - k,
    {
        let children = children_listed(parentage, parents[k]);
        index.push((parents[k], children));
        k = k + 1;
    }
    proof {
        assert forall|d: Distinction| #[trigger] is_indexed_parent(parentage@, d) implies exists|i: int|
            0 <= i < index@.len() && index@[i].0 == d by {
            let i = choose|i: int| 0 <= i < parents@.len() && parents@[i] == d;
            assert(index@[i].0 == d);
        }
    }
    index
}

/// Every parent named in `parentage`, once each, in order of first
/// occurrence.
fn distinct_parents(parentage: &[Entry]) -> (r: Vec<Distinction>)
    ensures
        forall|i: int, j: int| 0 <= i < r@.len() && 0 <= j < r@.len() && i != j ==> r@[i] != r@[j],
        forall|i: int| 0 <= i < r@.len() ==> is_indexed_parent(parentage@, #[trigger] r@[i]),
        forall|d: Distinction| #[trigger] is_indexed_parent(parentage@, d) ==> exists|i: int|
            0 <= i < r@.len() && r@[i] == d,
{
    let mut out: Vec<Distinction> = Vec::new();
    let mut k: usize = 0;
    while k < parentage.len()
        invariant
            0 <= k <= parentage@.len(),
            forall|i: int, j: int| 0 <= i < out@.len() && 0 <= j < out@.len() && i != j ==> out@[i] != out@[j],
            forall|i: int| 0 <= i < out@.len() ==> is_indexed_parent(parentage@, #[trigger] out@[i]),
            forall|w: int| #![trigger parentage@[w]] 0 <= w < k ==> (exists|i: int|
                0 <= i < out@.len() && out@[i] == parentage@[w].1.0) && (exists|i: int|
                0 <= i < out@.len() && out@[i] == parentage@[w].1.1),
        decreases parentage@.len() - k,
    {
        let (_, (a, b)) = parentage[k];
        let ghost o0 = out@;
        push_distinct(&mut out, a);
        let ghost o1 = out@;
        push_distinct(&mut out, b);
        proof {
            assert forall|w: int| #![trigger parentage@[w]] 0 <= w < k + 1 implies (exists|i: int|
                0 <= i < out@.len() && out@[i] == parentage@[w].1.0) && (exists|i: int|
                0 <= i < out@.len() && out@[i] == parentage@[w].1.1) by {
                if w < k {
                    let i0 = choose|i: int| 0 <= i < o0.len() && o0[i] == parentage@[w].1.0;
                    let i1 = choose|i: int| 0 <= i < o0.len() && o0[i] == parentage@[w].1.1;
                    assert(out@[i0] == o0[i0]);
                    assert(out@[i1] == o0[i1]);
                } else {
                    let ia = choose|i: int| 0 <= i < o1.len() && o1[i] == a;
                    assert(out@[ia] == o1[ia]);
                }
            }
            assert(is_indexed_parent(parentage@, a)) by {
                assert(parentage@[k as int].1.0 == a);
            }
            assert(is_indexed_parent(parentage@, b)) by {
                assert(parentage@[k as int].1.1 == b);
            }
        }
        k = k + 1;
    }
    proof {
        assert forall|d: Distinction| #[trigger] is_indexed_parent(parentage@, d) implies exists|i: int|
            0 <= i < out@.len() && out@[i] == d by {
            let w = choose|w: int| #![trigger parentage@[w]] 0 <= w < parentage@.len() && (parentage@[w].1.0 == d
                || parentage@[w].1.1 == d);
            assert(parentage@[w] == parentage@[w]);
        }
    }
    out
}

/// Append `d` unless it is already present.
fn push_distinct(out: &mut Vec<Distinction>, d: Distinction)
    requires
        forall|i: int, j: int|
            0 <= i < old(out)@.len() && 0 <= j < old(out)@.len() && i != j ==> old(out)@[i] != old(out)@[j],
    ensures
        forall|i: int, j: int|
            0 <= i < final(out)@.len() && 0 <= j < final(out)@.len() && i != j ==> final(out)@[i] != final(out)@[j],
        final(out)@ == old(out)@ || final(out)@ == old(out)@.push(d),
        exists|i: int| 0 <= i < final(out)@.len() && final(out)@[i] == d,
{
    let mut i: usize = 0;
    #[verifier::loop_isolation(false)]
    while i < out.len()
        invariant
            0 <= i <= out@.len(),
            out@ == old(out)@,
            forall|j: int| 0 <= j < i ==> out@[j] != d,
        decreases out@.len() - i,
    {
        if out[i].same_as(&d) {
            return;
        }
        i = i + 1;
    }
    out.push(d);
    proof {
        assert(out@[out@.len() - 1] == d);
    }
}

/// The children that `parentage` lists under `d`.
fn children_listed(parentage: &[Entry], d: Distinction) -> (r: Vec<Distinction>)
    ensures
        r@ == index_children(parentage@, d),
{
    let mut out: Vec<Distinction> = Vec::new();
    let mut k: usize = 0;
    while k < parentage.len()
        invariant
            0 <= k <= parentage@.len(),
            out@ == index_children(parentage@.take(k as int), d),
        decreases parentage@.len() - k,
    {
        let (c, (a, b)) = parentage[k];
        proof {
            assert(parentage@.take(k + 1).drop_last() =~= parentage@.take(k as int));
        }
        if a.same_as(&d) {
            out.push(c);
        }
        if b.same_as(&d) {
            out.push(c);
        }
        proof {
            assert(out@ =~= index_children(parentage@.take(k + 1), d));
        }
        k = k + 1;
    }
    proof {
        assert(parentage@.take(parentage@.len() as int) =~= parentage@);
    }
    out
}

} // verus!
