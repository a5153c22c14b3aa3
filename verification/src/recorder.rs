//! [`SynthesisRecorder`]: a chronological observer of the distinct
//! children a consumer's syntheses produce. A consumer pattern, not
//! substrate: the engine carries no order-bearing state.

use vstd::prelude::*;
use crate::distinction::{Distinction, child_of};
use crate::engine::{DistinctionEngine, synth_view, view_extends};
use crate::cone::{sorted_listing, listing_find, listing_insert};

verus! {

broadcast use crate::distinction::group_distinction;

/// Records, in call order, each child its `synthesize` wrapper produced
/// that it had not recorded before. Single-threaded: `synthesize` takes
/// `&mut self`.
pub struct SynthesisRecorder {
    /// Chronological log; each entry appears once.
    log: Vec<Distinction>,
    /// The logged identities, ascending by bytes, each with its log
    /// position, for logarithmic lookup.
    seen: Vec<(Distinction, usize)>,
    index: Ghost<Map<[u8; 16], nat>>,
    /// Every child `synthesize` returned, in call order.
    calls: Ghost<Seq<Distinction>>,
}

/// The distinct values of `s`, in order of first occurrence.
pub open spec fn first_occurrences(s: Seq<Distinction>) -> Seq<Distinction>
    decreases s.len(),
{
    if s.len() == 0 {
        Seq::empty()
    } else {
        let p = first_occurrences(s.drop_last());
        if p.contains(s.last()) {
            p
        } else {
            p.push(s.last())
        }
    }
}

/// The first occurrences of a sequence hold each of its values exactly
/// once, and nothing else, so there are no more of them than values.
pub proof fn lemma_first_occurrences(s: Seq<Distinction>)
    ensures
        first_occurrences(s).no_duplicates(),
        forall|x: Distinction| #[trigger] first_occurrences(s).contains(x) <==> s.contains(x),
        first_occurrences(s).len() <= s.len(),
    decreases s.len(),
{
    if s.len() > 0 {
        let t = s.drop_last();
        lemma_first_occurrences(t);
        let p = first_occurrences(t);
        assert(s =~= t.push(s.last()));
        assert forall|x: Distinction| #[trigger] first_occurrences(s).contains(x) <==> s.contains(x) by {
            if s.contains(x) && x != s.last() {
                let i = choose|i: int| 0 <= i < s.len() && s[i] == x;
                assert(t[i] == x);
            }
            if t.contains(x) {
                let i = choose|i: int| 0 <= i < t.len() && t[i] == x;
                assert(s[i] == x);
            }
            if !p.contains(s.last()) {
                if p.push(s.last()).contains(x) && x != s.last() {
                    let i = choose|i: int| 0 <= i < p.push(s.last()).len() && p.push(s.last())[i] == x;
                    assert(p[i] == x);
                }
                if p.contains(x) {
                    let i = choose|i: int| 0 <= i < p.len() && p[i] == x;
                    assert(p.push(s.last())[i] == x);
                }
                if x == s.last() {
                    assert(p.push(s.last())[p.len() as int] == x);
                }
            }
        }
        if !p.contains(s.last()) {
            let q = p.push(s.last());
            assert forall|i: int, j: int| 0 <= i < q.len() && 0 <= j < q.len() && i != j implies q[i] != q[j] by {
                if i < p.len() && j < p.len() {
                    assert(q[i] == p[i] && q[j] == p[j]);
                } else if i < p.len() {
                    assert(q[i] == p[i]);
                } else if j < p.len() {
                    assert(q[j] == p[j]);
                }
            }
        }
    }
}

impl View for SynthesisRecorder {
    type V = Seq<Distinction>;

    closed spec fn view(&self) -> Seq<Distinction> {
        self.log@
    }
}

impl SynthesisRecorder {
    /// Every child `synthesize` returned, in call order.
    pub closed spec fn history(&self) -> Seq<Distinction> {
        self.calls@
    }

    /// The log and its index agree, and the log holds no entry twice.
    pub closed spec fn wf(&self) -> bool {
        &&& sorted_listing(self.seen@, self.index@)
        &&& forall|i: int| #![trigger self.log@[i]] 0 <= i < self.log@.len() ==> self.index@.contains_key(
            self.log@[i]@,
        )
        &&& forall|k: [u8; 16]| #[trigger] self.index@.contains_key(k) ==> exists|i: int|
            0 <= i < self.log@.len() && self.log@[i]@ == k
        &&& self.log@.no_duplicates()
        &&& self.log@ == first_occurrences(self.calls@)
    }

    /// An empty recorder.
    pub fn new() -> (r: SynthesisRecorder)
        ensures
            r.wf(),
            r@ == Seq::<Distinction>::empty(),
            r.history() == Seq::<Distinction>::empty(),
    {
        let r = SynthesisRecorder {
            log: Vec::new(),
            seen: Vec::new(),
            index: Ghost(Map::empty()),
            calls: Ghost(Seq::empty()),
        };
        proof {
            assert(r.log@ =~= first_occurrences(r.calls@));
        }
        r
    }

    /// Synthesize `a` with `b` through `engine`, logging the child when this
    /// recorder has not logged it before.
    pub fn synthesize(&mut self, engine: &mut DistinctionEngine, a: Distinction, b: Distinction) -> (c: Distinction)
        requires
            old(self).wf(),
            old(engine).wf(),
            old(engine)@.contains_key(a@),
            old(engine)@.contains_key(b@),
        ensures
            final(self).wf(),
            final(engine).wf(),
            c == child_of(a, b),
            final(engine)@ == synth_view(old(engine)@, a, b),
            final(engine)@.contains_key(c@),
            view_extends(old(engine)@, final(engine)@),
            final(self)@ == (if old(self)@.contains(c) {
                old(self)@
            } else {
                old(self)@.push(c)
            }),
            final(self)@.no_duplicates(),
            final(self).history() == old(self).history().push(c),
            final(self)@ == first_occurrences(final(self).history()),
    {
        proof {
            engine.lemma_wf_view();
            crate::engine::lemma_synth_view(engine@, a, b);
        }
        let c = engine.synthesize(a, b);
        let (found, pos) = listing_find(&self.seen, c, Ghost(self.index@));
        proof {
            if old(self)@.contains(c) {
                let i = choose|i: int| 0 <= i < self.log@.len() && self.log@[i] == c;
                assert(self.index@.contains_key(self.log@[i]@));
            }
            if found {
                let i = choose|i: int| 0 <= i < self.log@.len() && self.log@[i]@ == c@;
                assert(self.log@[i] == c);
            }
        }
        let ghost h0 = self.calls@;
        self.calls = Ghost(h0.push(c));
        proof {
            assert(self.calls@.drop_last() =~= h0);
        }
        if !found {
            let at = self.log.len();
            let ghost m = self.index@;
            let ghost log0 = self.log@;
            listing_insert(&mut self.seen, pos, c, at, Ghost(m));
            self.log.push(c);
            self.index = Ghost(m.insert(c@, at as nat));
            proof {
                assert forall|i: int| #![trigger self.log@[i]] 0 <= i < self.log@.len() implies self.index@.contains_key(
                    self.log@[i]@,
                ) by {
                    if i < log0.len() {
                        assert(self.log@[i] == log0[i]);
                    }
                }
                assert forall|k: [u8; 16]| #[trigger] self.index@.contains_key(k) implies exists|i: int|
                    0 <= i < self.log@.len() && self.log@[i]@ == k by {
                    if k == c@ {
                        assert(self.log@[log0.len() as int]@ == k);
                    } else {
                        let i = choose|i: int| 0 <= i < log0.len() && log0[i]@ == k;
                        assert(self.log@[i] == log0[i]);
                    }
                }
                assert forall|i: int, j: int| 0 <= i < self.log@.len() && 0 <= j < self.log@.len() && i != j implies self.log@[i]
                    != self.log@[j] by {
                    if i < log0.len() && j < log0.len() {
                        assert(self.log@[i] == log0[i] && self.log@[j] == log0[j]);
                    } else if i < log0.len() {
                        assert(self.log@[i] == log0[i]);
                        assert(m.contains_key(log0[i]@));
                    } else if j < log0.len() {
                        assert(self.log@[j] == log0[j]);
                        assert(m.contains_key(log0[j]@));
                    }
                }
            }
        }
        c
    }

    /// The log, in call order; each entry appears once.
    pub fn log(&self) -> (r: &[Distinction])
        requires
            self.wf(),
        ensures
            r@ == self@,
            r@ == first_occurrences(self.history()),
            r@.no_duplicates(),
    {
        self.log.as_slice()
    }
}

impl Default for SynthesisRecorder {
    fn default() -> (r: SynthesisRecorder)
        ensures
            r.wf(),
            r@ == Seq::<Distinction>::empty(),
            r.history() == Seq::<Distinction>::empty(),
    {
        SynthesisRecorder::new()
    }
}

} // verus!
