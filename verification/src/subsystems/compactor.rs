//! Structural compactor: classifies distinctions by their Structural
//! Importance Score (degree) into hot, warm and cold bands, marks cold ones
//! as archived, and records each compaction pass as a distinction on its
//! own causal chain. Compaction never removes anything from the engine:
//! archival is a marking held by the compactor.

use vstd::prelude::*;
use vstd::bytes::{spec_u64_to_le_bytes, u64_to_le_bytes};
use vstd::string::StringExecFns;
use vstd::utf8::encode_utf8;
use crate::distinction::{Distinction, spec_d0, spec_d1, child_of, d0_bytes};
use crate::distinction_hex::{lemma_hex_round_trip, spec_decode_hex_16};
use crate::engine::{DistinctionEngine, EngineView, synth_view, spec_degree, view_extends, lemma_synth_view};
use crate::primitives::{Canonicalizable, synth_step};
use crate::agent::{LocalCausalAgent, causal_step, synthesize_causal_action};
use crate::subsystems::network::{seeded_chain, fold_onto, lemma_seeded_chain_tip};
use crate::subsystems::runtime::RuntimeAction;
use crate::bindings::hex_chars;

verus! {

broadcast use crate::distinction::group_distinction;

/// Thermal band of a distinction relative to the compactor's thresholds.
#[derive(Debug, Clone, PartialEq, Eq, Structural)]
pub enum ThermalState {
    /// `degree >= hot_threshold`: preserved in the active set.
    Hot,
    /// `warm_threshold <= degree < hot_threshold`: monitored.
    Warm,
    /// `degree < warm_threshold`: eligible for archival.
    Cold,
}

/// The band of a degree under thresholds `hot` and `warm`.
pub open spec fn thermal_of(degree: usize, hot: usize, warm: usize) -> ThermalState {
    if degree >= hot {
        ThermalState::Hot
    } else if degree >= warm {
        ThermalState::Warm
    } else {
        ThermalState::Cold
    }
}

/// Keyed entries with owned keys, viewed with keys as character sequences.
pub open spec fn keyed<V>(s: Seq<(String, V)>) -> Seq<(Seq<char>, V)> {
    s.map_values(|e: (String, V)| (e.0@, e.1))
}

/// No key occurs twice.
pub open spec fn distinct_keys<V>(s: Seq<(Seq<char>, V)>) -> bool {
    forall|i: int, j: int| 0 <= i < s.len() && 0 <= j < s.len() && i != j ==> #[trigger] s[i].0 != #[trigger] s[j].0
}

/// The distinction whose hex form is `k` (when `k` is one).
pub open spec fn hex_key(k: Seq<char>) -> Distinction {
    Distinction::mk(
        match spec_decode_hex_16(encode_utf8(k)) {
            Ok(b) => b,
            Err(_) => d0_bytes(),
        },
    )
}

/// `s` lists every distinction of `v` exactly once, keyed by its hex form,
/// with its degree (its Structural Importance Score).
pub open spec fn sis_listing(v: EngineView, s: Seq<(Seq<char>, usize)>) -> bool {
    &&& s.len() == v.dom().len()
    &&& distinct_keys(s)
    &&& forall|i: int| #![trigger s[i]] 0 <= i < s.len() ==> {
        let d = hex_key(s[i].0);
        v.contains_key(d@) && s[i].0 == hex_chars(d@@) && s[i].1 == spec_degree(v, d)
    }
    &&& forall|d: Distinction| #[trigger] v.contains_key(d@) ==> exists|i: int|
        0 <= i < s.len() && s[i].0 == hex_chars(d@@)
}

/// Each key of a score listing with its band.
pub open spec fn classify(s: Seq<(Seq<char>, usize)>, hot: usize, warm: usize) -> Seq<(Seq<char>, ThermalState)> {
    s.map_values(|e: (Seq<char>, usize)| (e.0, thermal_of(e.1, hot, warm)))
}

/// How many entries of `s` are in band `t`.
pub open spec fn count_state(s: Seq<(Seq<char>, ThermalState)>, t: ThermalState) -> nat
    decreases s.len(),
{
    if s.len() == 0 {
        0
    } else {
        count_state(s.drop_last(), t) + (if s.last().1 == t {
            1nat
        } else {
            0nat
        })
    }
}

/// Counting never exceeds the length.
proof fn lemma_count_bound(s: Seq<(Seq<char>, ThermalState)>, t: ThermalState)
    ensures
        count_state(s, t) <= s.len(),
    decreases s.len(),
{
    if s.len() > 0 {
        lemma_count_bound(s.drop_last(), t);
    }
}

/// The three bands partition a classification: every classified id is in
/// exactly one of them, so their counts add up to the total.
pub proof fn lemma_bands_partition(s: Seq<(Seq<char>, ThermalState)>)
    ensures
        count_state(s, ThermalState::Hot) + count_state(s, ThermalState::Warm) + count_state(s, ThermalState::Cold)
            == s.len(),
    decreases s.len(),
{
    if s.len() > 0 {
        lemma_bands_partition(s.drop_last());
    }
}

/// Two distinctions with the same hex form are the same distinction.
proof fn lemma_hex_injective(a: Distinction, b: Distinction)
    requires
        hex_chars(a@@) == hex_chars(b@@),
    ensures
        a == b,
{
    lemma_hex_round_trip(a@);
    lemma_hex_round_trip(b@);
}

/// The record of one compaction pass.
#[derive(Debug, Clone)]
pub struct CompactionAction {
    /// The hot threshold the pass classified with.
    pub sis_threshold: usize,
    /// Number of distinctions the pass preserved (hot and warm).
    pub preserved_count: usize,
}

impl Canonicalizable for CompactionAction {
    /// The threshold's and the count's eight little-endian bytes, each
    /// folded onto `d0`, then synthesized together.
    open spec fn spec_canonical(&self, v: EngineView) -> (EngineView, Distinction) {
        let (v1, t) = seeded_chain(v, spec_d0(), spec_u64_to_le_bytes(self.sis_threshold as u64), 8);
        let (v2, c) = seeded_chain(v1, spec_d0(), spec_u64_to_le_bytes(self.preserved_count as u64), 8);
        synth_step(v2, t, c)
    }

    fn to_canonical_structure(self, engine: &mut DistinctionEngine) -> (d: Distinction) {
        proof {
            engine.lemma_wf_view();
        }
        let d0 = engine.d0();
        let tb = u64_to_le_bytes(self.sis_threshold as u64);
        let t = fold_onto(engine, d0, tb.as_slice(), 8);
        proof {
            engine.lemma_wf_view();
        }
        let cb = u64_to_le_bytes(self.preserved_count as u64);
        let c = fold_onto(engine, d0, cb.as_slice(), 8);
        proof {
            engine.lemma_wf_view();
            lemma_synth_view(engine@, t, c);
        }
        engine.synthesize(t, c)
    }
}

/// A compaction event records both of its numbers: its event is the epoch
/// event of the threshold synthesized with the epoch event of the count of
/// preserved distinctions, on whatever engine each of them is computed.
pub proof fn lemma_compaction_records_threshold_and_count(
    v: EngineView,
    w1: EngineView,
    w2: EngineView,
    a: CompactionAction,
)
    ensures
        a.spec_canonical(v).1 == child_of(
            (RuntimeAction::EpochAdvanced { new_epoch: a.sis_threshold as u64 }).spec_canonical(w1).1,
            (RuntimeAction::EpochAdvanced { new_epoch: a.preserved_count as u64 }).spec_canonical(w2).1,
        ),
{
    let tb = spec_u64_to_le_bytes(a.sis_threshold as u64);
    let cb = spec_u64_to_le_bytes(a.preserved_count as u64);
    lemma_seeded_chain_tip(v, w1, spec_d0(), tb, 8);
    let v1 = seeded_chain(v, spec_d0(), tb, 8).0;
    lemma_seeded_chain_tip(v1, w2, spec_d0(), cb, 8);
}

/// Statistics about a compactor.
#[derive(Debug, Clone)]
pub struct CompactionStats {
    /// Entries classified by the last pass.
    pub total_distinctions: usize,
    /// Hot entries.
    pub hot_count: usize,
    /// Warm entries.
    pub warm_count: usize,
    /// Cold entries.
    pub cold_count: usize,
    /// Ids marked archived so far.
    pub archived_count: usize,
    /// Compaction events recorded on the chain.
    pub compaction_operations: u64,
    /// The compactor's root as 32 hex characters.
    pub current_root: String,
}

/// The structural compactor.
pub struct StructuralCompactor {
    local_root: Distinction,
    thermal_states: Vec<(String, ThermalState)>,
    archived_set: Vec<String>,
    hot_threshold: usize,
    warm_threshold: usize,
    compaction_count: u64,
}

impl StructuralCompactor {
    /// The compactor's root.
    pub closed spec fn root(&self) -> Distinction {
        self.local_root
    }

    /// The classification of the last pass: each id with its band.
    pub closed spec fn thermal(&self) -> Seq<(Seq<char>, ThermalState)> {
        keyed(self.thermal_states@)
    }

    /// The ids marked archived.
    pub closed spec fn archived(&self) -> Seq<Seq<char>> {
        self.archived_set@.map_values(|s: String| s@)
    }

    /// The hot threshold.
    pub closed spec fn hot(&self) -> usize {
        self.hot_threshold
    }

    /// The warm threshold.
    pub closed spec fn warm(&self) -> usize {
        self.warm_threshold
    }

    /// Compaction events recorded.
    pub closed spec fn count(&self) -> u64 {
        self.compaction_count
    }

    /// Ids are unique in the classification and in the archive, and the
    /// warm band is not above the hot one.
    pub open spec fn wf(&self) -> bool {
        &&& distinct_keys(self.thermal())
        &&& self.archived().no_duplicates()
        &&& self.warm() <= self.hot()
    }

    /// A compactor rooted at `d0 ⊗ d1` with thresholds `hot >= warm`.
    pub fn new(engine: &mut DistinctionEngine, hot_threshold: usize, warm_threshold: usize) -> (c: StructuralCompactor)
        requires
            old(engine).wf(),
            warm_threshold <= hot_threshold,
        ensures
            final(engine).wf(),
            final(engine)@ == synth_view(old(engine)@, spec_d0(), spec_d1()),
            c.wf(),
            c.root() == child_of(spec_d0(), spec_d1()),
            c.thermal() == Seq::<(Seq<char>, ThermalState)>::empty(),
            c.archived() == Seq::<Seq<char>>::empty(),
            c.hot() == hot_threshold,
            c.warm() == warm_threshold,
            c.count() == 0,
    {
        proof {
            engine.lemma_wf_view();
        }
        let d0 = engine.d0();
        let d1 = engine.d1();
        let genesis = engine.synthesize(d0, d1);
        let c = StructuralCompactor {
            local_root: genesis,
            thermal_states: Vec::new(),
            archived_set: Vec::new(),
            hot_threshold,
            warm_threshold,
            compaction_count: 0,
        };
        proof {
            assert(c.thermal() =~= Seq::<(Seq<char>, ThermalState)>::empty());
            assert(c.archived() =~= Seq::<Seq<char>>::empty());
        }
        c
    }

    /// Every distinction of the engine, keyed by its hex form, with its
    /// degree.
    pub fn calculate_sis(&self, engine: &DistinctionEngine) -> (r: Vec<(String, usize)>)
        requires
            engine.wf(),
        ensures
            sis_listing(engine@, keyed(r@)),
    {
        let snap = engine.snapshot_distinctions();
        let ghost v = engine@;
        let mut out: Vec<(String, usize)> = Vec::new();
        let mut i: usize = 0;
        while i < snap.len()
            invariant
                engine.wf(),
                v == engine@,
                i <= snap@.len(),
                snap@.len() == v.dom().len(),
                forall|k: int| #![trigger snap@[k]] 0 <= k < snap@.len() ==> v.contains_key(snap@[k]@),
                forall|x: [u8; 16]| #[trigger] v.contains_key(x) ==> exists|k: int|
                    0 <= k < snap@.len() && snap@[k]@ == x,
                forall|a: int, b: int|
                    0 <= a < snap@.len() && 0 <= b < snap@.len() && a != b ==> #[trigger] snap@[a] != #[trigger] snap@[b],
                out@.len() == i,
                forall|k: int| #![trigger out@[k]] 0 <= k < i ==> out@[k].0@ == hex_chars(snap@[k]@@) && out@[k].1
                    == spec_degree(v, snap@[k]),
            decreases snap@.len() - i,
        {
            let d = snap[i];
            let h = d.to_hex();
            let g = engine.degree(d);
            out.push((h, g));
            i = i + 1;
        }
        proof {
            let s = keyed(out@);
            assert(s.len() == v.dom().len());
            assert forall|a: int, b: int| 0 <= a < s.len() && 0 <= b < s.len() && a != b implies #[trigger] s[a].0
                != #[trigger] s[b].0 by {
                assert(s[a].0 == out@[a].0@ && s[b].0 == out@[b].0@);
                if s[a].0 == s[b].0 {
                    lemma_hex_injective(snap@[a], snap@[b]);
                }
            }
            assert forall|k: int| #![trigger s[k]] 0 <= k < s.len() implies {
                let d = hex_key(s[k].0);
                v.contains_key(d@) && s[k].0 == hex_chars(d@@) && s[k].1 == spec_degree(v, d)
            } by {
                let d = snap@[k];
                lemma_hex_round_trip(d@);
                assert(hex_key(s[k].0) == d);
            }
            assert forall|d: Distinction| #[trigger] v.contains_key(d@) implies exists|k: int|
                0 <= k < s.len() && s[k].0 == hex_chars(d@@) by {
                let k = choose|k: int| 0 <= k < snap@.len() && snap@[k]@ == d@;
                assert(snap@[k] == d);
                assert(s[k].0 == out@[k].0@);
            }
            assert(distinct_keys(s));
        }
        out
    }

    /// Replace the classification with one band per listed id, under the
    /// current thresholds.
    pub fn classify_thermal_states(&mut self, sis_map: &Vec<(String, usize)>)
        requires
            old(self).wf(),
            distinct_keys(keyed(sis_map@)),
        ensures
            final(self).wf(),
            final(self).thermal() == classify(keyed(sis_map@), old(self).hot(), old(self).warm()),
            final(self).archived() == old(self).archived(),
            final(self).root() == old(self).root(),
            final(self).hot() == old(self).hot(),
            final(self).warm() == old(self).warm(),
            final(self).count() == old(self).count(),
    {
        let ghost target = classify(keyed(sis_map@), self.hot_threshold, self.warm_threshold);
        let mut states: Vec<(String, ThermalState)> = Vec::new();
        let mut i: usize = 0;
        while i < sis_map.len()
            invariant
                i <= sis_map@.len(),
                target == classify(keyed(sis_map@), self.hot_threshold, self.warm_threshold),
                states@.len() == i,
                keyed(states@) =~= target.take(i as int),
            decreases sis_map@.len() - i,
        {
            let degree = sis_map[i].1;
            let state = if degree >= self.hot_threshold {
                ThermalState::Hot
            } else if degree >= self.warm_threshold {
                ThermalState::Warm
            } else {
                ThermalState::Cold
            };
            let key = sis_map[i].0.clone();
            let ghost before = states@;
            states.push((key, state));
            proof {
                assert(keyed(sis_map@)[i as int] == (sis_map@[i as int].0@, sis_map@[i as int].1));
                assert(target[i as int] == (key@, state));
                assert forall|j: int| 0 <= j <= i implies #[trigger] keyed(states@)[j] == target.take(i + 1)[j] by {
                    if j < i {
                        assert(states@[j] == before[j]);
                        assert(keyed(before)[j] == target.take(i as int)[j]);
                    }
                }
                assert(keyed(states@) =~= target.take(i + 1));
            }
            i = i + 1;
        }
        proof {
            assert(target.take(sis_map@.len() as int) =~= target);
        }
        self.thermal_states = states;
        proof {
            let t = self.thermal();
            assert forall|a: int, b: int| 0 <= a < t.len() && 0 <= b < t.len() && a != b implies #[trigger] t[a].0
                != #[trigger] t[b].0 by {
                assert(t[a].0 == keyed(sis_map@)[a].0 && t[b].0 == keyed(sis_map@)[b].0);
            }
        }
    }

    /// Score every distinction, classify it, and mark the cold ones as
    /// archived. The pass is a dry run with respect to the chain: the root
    /// and the compaction count are untouched.
    pub fn compact(&mut self, engine: &DistinctionEngine) -> (a: CompactionAction)
        requires
            old(self).wf(),
            engine.wf(),
        ensures
            final(self).wf(),
            exists|s: Seq<(Seq<char>, usize)>| #[trigger]
                sis_listing(engine@, s) && final(self).thermal() == classify(s, old(self).hot(), old(self).warm()),
            forall|k: Seq<char>| #[trigger]
                final(self).archived().contains(k) <==> old(self).archived().contains(k) || exists|j: int|
                    0 <= j < final(self).thermal().len() && final(self).thermal()[j] == (k, ThermalState::Cold),
            a.sis_threshold == old(self).hot(),
            a.preserved_count == count_state(final(self).thermal(), ThermalState::Hot) + count_state(
                final(self).thermal(),
                ThermalState::Warm,
            ),
            final(self).root() == old(self).root(),
            final(self).hot() == old(self).hot(),
            final(self).warm() == old(self).warm(),
            final(self).count() == old(self).count(),
    {
        let sis = self.calculate_sis(engine);
        self.classify_thermal_states(&sis);
        let ghost t = self.thermal();
        let ghost a0 = self.archived();
        let mut preserved: usize = 0;
        let mut i: usize = 0;
        while i < self.thermal_states.len()
            invariant
                self.wf(),
                t == self.thermal(),
                i <= t.len(),
                preserved == count_state(t.take(i as int), ThermalState::Hot) + count_state(
                    t.take(i as int),
                    ThermalState::Warm,
                ),
                forall|k: Seq<char>| #[trigger]
                    self.archived().contains(k) <==> a0.contains(k) || exists|j: int|
                        0 <= j < i && t[j] == (k, ThermalState::Cold),
                self.root() == old(self).root(),
                self.hot() == old(self).hot(),
                self.warm() == old(self).warm(),
                self.count() == old(self).count(),
            decreases t.len() - i,
        {
            proof {
                assert(t.take(i + 1).drop_last() =~= t.take(i as int));
                lemma_bands_partition(t.take(i as int));
                lemma_count_bound(t.take(i as int), ThermalState::Cold);
            }
            let is_cold = match self.thermal_states[i].1 {
                ThermalState::Cold => true,
                _ => false,
            };
            if is_cold {
                let key = self.thermal_states[i].0.clone();
                let ghost before = self.archived();
                proof {
                    assert(t[i as int] == (key@, ThermalState::Cold));
                }
                let present = self.archive_contains(&key);
                if !present {
                    self.archived_set.push(key);
                    proof {
                        let after = self.archived();
                        assert(after =~= before.push(key@));
                        assert forall|x: int, y: int| 0 <= x < y < after.len() implies after[x] != after[y] by {
                            if y == before.len() {
                                assert(before.contains(before[x]));
                            } else {
                                assert(before[x] == after[x] && before[y] == after[y]);
                            }
                        }
                    }
                }
                proof {
                    let after = self.archived();
                    assert forall|k: Seq<char>| #[trigger] after.contains(k) implies before.contains(k) || k == key@ by {
                        if !present {
                            let x = choose|x: int| 0 <= x < after.len() && after[x] == k;
                            if x < before.len() {
                                assert(before[x] == k);
                            }
                        }
                    }
                    assert forall|k: Seq<char>| before.contains(k) || k == key@ implies #[trigger] after.contains(k) by {
                        if !present {
                            if before.contains(k) {
                                let x = choose|x: int| 0 <= x < before.len() && before[x] == k;
                                assert(after[x] == k);
                            } else {
                                assert(after[before.len() as int] == k);
                            }
                        }
                    }
                    assert forall|k: Seq<char>| #[trigger]
                        after.contains(k) <==> a0.contains(k) || exists|j: int|
                            0 <= j < i + 1 && t[j] == (k, ThermalState::Cold) by {
                        if exists|j: int| 0 <= j < i + 1 && t[j] == (k, ThermalState::Cold) {
                            let j = choose|j: int| 0 <= j < i + 1 && t[j] == (k, ThermalState::Cold);
                            if j == i {
                                assert(k == key@);
                            } else {
                                assert(before.contains(k));
                            }
                        }
                        if k == key@ {
                            assert(t[i as int] == (k, ThermalState::Cold));
                        }
                    }
                }
            } else {
                preserved = preserved + 1;
                proof {
                    assert forall|k: Seq<char>| #[trigger]
                        self.archived().contains(k) <==> a0.contains(k) || exists|j: int|
                            0 <= j < i + 1 && t[j] == (k, ThermalState::Cold) by {
                        if exists|j: int| 0 <= j < i + 1 && t[j] == (k, ThermalState::Cold) {
                            let j = choose|j: int| 0 <= j < i + 1 && t[j] == (k, ThermalState::Cold);
                            assert(j != i);
                        }
                    }
                }
            }
            i = i + 1;
        }
        proof {
            assert(t.take(t.len() as int) =~= t);
        }
        CompactionAction { sis_threshold: self.hot_threshold, preserved_count: preserved }
    }

    /// Whether `key` is in the archive.
    fn archive_contains(&self, key: &String) -> (b: bool)
        ensures
            b == self.archived().contains(key@),
    {
        let mut i: usize = 0;
        while i < self.archived_set.len()
            invariant
                i <= self.archived_set@.len(),
                forall|j: int| 0 <= j < i ==> self.archived()[j] != key@,
            decreases self.archived_set@.len() - i,
        {
            if self.archived_set[i] == *key {
                proof {
                    assert(self.archived()[i as int] == key@);
                }
                return true;
            }
            i = i + 1;
        }
        false
    }

    /// How many classified entries are in band `t`.
    fn count_band(&self, t: ThermalState) -> (n: usize)
        ensures
            n == count_state(self.thermal(), t),
    {
        let ghost s = self.thermal();
        let mut n: usize = 0;
        let mut i: usize = 0;
        while i < self.thermal_states.len()
            invariant
                s == self.thermal(),
                i <= s.len(),
                n == count_state(s.take(i as int), t),
            decreases s.len() - i,
        {
            proof {
                assert(s.take(i + 1).drop_last() =~= s.take(i as int));
                lemma_count_bound(s.take(i as int), t);
            }
            if self.thermal_states[i].1 == t {
                n = n + 1;
            }
            i = i + 1;
        }
        proof {
            assert(s.take(s.len() as int) =~= s);
        }
        n
    }

    /// Counts of the last classification, the archive's size, the number
    /// of recorded compactions and the root.
    pub fn get_stats(&self) -> (st: CompactionStats)
        ensures
            st.total_distinctions == self.thermal().len(),
            st.hot_count == count_state(self.thermal(), ThermalState::Hot),
            st.warm_count == count_state(self.thermal(), ThermalState::Warm),
            st.cold_count == count_state(self.thermal(), ThermalState::Cold),
            st.archived_count == self.archived().len(),
            st.compaction_operations == self.count(),
            st.current_root@ == hex_chars(self.root()@@),
    {
        CompactionStats {
            total_distinctions: self.thermal_states.len(),
            hot_count: self.count_band(ThermalState::Hot),
            warm_count: self.count_band(ThermalState::Warm),
            cold_count: self.count_band(ThermalState::Cold),
            archived_count: self.archived_set.len(),
            compaction_operations: self.compaction_count,
            current_root: self.local_root.to_hex(),
        }
    }

    /// Whether `id` is marked archived.
    pub fn is_archived(&self, id: &str) -> (b: bool)
        ensures
            b == self.archived().contains(id@),
    {
        let key = String::from_str(id);
        self.archive_contains(&key)
    }

    /// The band of `id` in the last classification, if it was classified.
    pub fn get_thermal_state(&self, id: &str) -> (r: Option<&ThermalState>)
        requires
            self.wf(),
        ensures
            r matches Some(t) ==> exists|j: int|
                0 <= j < self.thermal().len() && self.thermal()[j] == (id@, *t),
            r is None ==> forall|j: int| 0 <= j < self.thermal().len() ==> #[trigger] self.thermal()[j].0 != id@,
    {
        let key = String::from_str(id);
        let mut i: usize = 0;
        while i < self.thermal_states.len()
            invariant
                i <= self.thermal_states@.len(),
                key@ == id@,
                forall|j: int| 0 <= j < i ==> #[trigger] self.thermal()[j].0 != id@,
            decreases self.thermal_states@.len() - i,
        {
            if self.thermal_states[i].0 == key {
                proof {
                    assert(self.thermal()[i as int] == (id@, self.thermal_states@[i as int].1));
                }
                return Some(&self.thermal_states[i].1);
            }
            proof {
                assert(self.thermal()[i as int].0 == self.thermal_states@[i as int].0@);
            }
            i = i + 1;
        }
        None
    }

    /// Reconfigure the thresholds; `warm` must not exceed `hot`.
    pub fn set_thresholds(&mut self, hot_threshold: usize, warm_threshold: usize)
        requires
            old(self).wf(),
            warm_threshold <= hot_threshold,
        ensures
            final(self).wf(),
            final(self).hot() == hot_threshold,
            final(self).warm() == warm_threshold,
            final(self).thermal() == old(self).thermal(),
            final(self).archived() == old(self).archived(),
            final(self).root() == old(self).root(),
            final(self).count() == old(self).count(),
    {
        self.hot_threshold = hot_threshold;
        self.warm_threshold = warm_threshold;
    }

    /// The `(hot, warm)` thresholds.
    pub fn thresholds(&self) -> (r: (usize, usize))
        ensures
            r == (self.hot(), self.warm()),
    {
        (self.hot_threshold, self.warm_threshold)
    }
}

impl LocalCausalAgent for StructuralCompactor {
    type ActionData = CompactionAction;

    open spec fn spec_root(&self) -> Distinction {
        self.root()
    }

    fn get_current_root(&self) -> (d: Distinction) {
        self.local_root
    }

    /// Record a compaction event on the chain and count it; the
    /// classification and the archive are left as the last pass set them.
    fn synthesize_action(&mut self, action: CompactionAction, engine: &mut DistinctionEngine) -> (d: Distinction)
        ensures
            final(self).count() == old(self).count().wrapping_add(1),
            final(self).thermal() == old(self).thermal(),
            final(self).archived() == old(self).archived(),
            final(self).hot() == old(self).hot(),
            final(self).warm() == old(self).warm(),
    {
        let new_root = synthesize_causal_action(self.local_root, action, engine);
        self.local_root = new_root;
        self.compaction_count = self.compaction_count.wrapping_add(1);
        new_root
    }

    fn update_local_root(&mut self, new_root: Distinction) {
        self.local_root = new_root;
    }
}

} // verus!
