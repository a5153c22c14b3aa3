//! Substrate engine: the [`Distinction`] type, the [`IdentityHasher`], and
//! [`DistinctionEngine`] with its synthesize operator.
//!
//! The engine's abstract state is its parentage map: every registered
//! distinction's 16 bytes mapped to its canonical `(min, max)` parent pair
//! (`None` for the two primordials). Degrees are a function of that map:
//! the degree field stored per node is, by the engine's invariant, the
//! number of registered children of that node.

use vstd::prelude::*;
use dashmap::DashMap;
use vstd::string::StringExecFns;
use crate::text::{decimal_chars, push_decimal};
use crate::distinction::{
    Distinction, RawDistinctionId, ParentPair, bytes_lt, bytes_less, arr16, lemma_arr16, d0_bytes,
    d1_bytes, spec_d0, spec_d1, is_primordial, canonical_pair, child_of, synthesis_input,
    lemma_canonical_pair,
};
use crate::bindings::{
    node_map_contents, node_map_new, node_map_insert, node_map_contains, node_map_get,
    node_map_len, node_map_entries, sha256, sha256_digest,
};

verus! {

broadcast use crate::distinction::group_distinction;

/// Why [`DistinctionEngine::verify`] rejects bytes.
#[derive(Debug, Clone, Copy, PartialEq, Eq)]
pub enum VerifyError {
    /// The bytes are not registered in this engine.
    ForeignBytes,
}

impl VerifyError {
    /// The display message.
    pub fn to_display_string(&self) -> (s: String)
        ensures
            s@ == "distinction bytes not registered in this engine"@,
    {
        match self {
            VerifyError::ForeignBytes => String::from_str("distinction bytes not registered in this engine"),
        }
    }
}

/// The relationships an engine state holds, counted without a machine
/// bound: two parent edges per distinction with parents, plus the
/// genesis edge.
pub open spec fn relationships(v: EngineView) -> nat {
    2 * v.dom().filter(|k: [u8; 16]| v[k] is Some).len() + 1
}

/// Reasons [`DistinctionEngine::check_structural_invariant`] can fail.
#[derive(Debug, Clone, PartialEq, Eq)]
pub enum InvariantError {
    /// `nodes.len() != (count of nodes with parents) + 2`.
    BinaryParentageMismatch {
        /// Total distinction count.
        all_distinctions: usize,
        /// Count of nodes with parents, plus 2 for the primordials.
        parents_of_plus_two: usize,
    },
}

/// The display message of an invariant error.
pub open spec fn invariant_message(e: InvariantError) -> Seq<char> {
    match e {
        InvariantError::BinaryParentageMismatch { all_distinctions, parents_of_plus_two } =>
            "binary parentage violation: all_distinctions.len()="@ + decimal_chars(all_distinctions as nat)
            + ", parents_of.len()+2="@ + decimal_chars(parents_of_plus_two as nat),
    }
}

impl InvariantError {
    /// The display message.
    pub fn to_display_string(&self) -> (s: String)
        ensures
            s@ == invariant_message(*self),
    {
        match self {
            InvariantError::BinaryParentageMismatch { all_distinctions, parents_of_plus_two } => {
                let mut s = String::from_str("binary parentage violation: all_distinctions.len()=");
                push_decimal(&mut s, *all_distinctions as u64);
                s.append(", parents_of.len()+2=");
                push_decimal(&mut s, *parents_of_plus_two as u64);
                s
            },
        }
    }
}

// ---------------------------------------------------------------------------
// IdentityHasher
// ---------------------------------------------------------------------------

/// Hasher for 16-byte distinction identities. SHA-256 prefixes are
/// uniformly distributed, so the hash is simply the key's leading 8 bytes
/// read little-endian, with no further mixing.
pub struct IdentityHasher {
    state: u64,
}

impl View for IdentityHasher {
    type V = u64;

    closed spec fn view(&self) -> u64 {
        self.state
    }
}

impl IdentityHasher {
    /// The hash: the state.
    pub fn finish(&self) -> (h: u64)
        ensures
            h == self@,
    {
        self.state
    }

    /// Absorb a key: the state becomes its leading 8 bytes, little-endian.
    pub fn write(&mut self, bytes: &[u8])
        requires
            bytes@.len() >= 8,
        ensures
            final(self)@ == vstd::bytes::spec_u64_from_le_bytes(bytes@.take(8)),
    {
        let n = bytes.len();
        let mut prefix = [0u8; 8];
        for i in 0..8
            invariant
                n == bytes@.len(),
                n >= 8,
                forall|j: int| 0 <= j < i ==> prefix[j] == bytes@[j],
        {
            prefix[i] = bytes[i];
        }
        proof {
            assert(prefix@ =~= bytes@.take(8));
        }
        self.state = vstd::bytes::u64_from_le_bytes(prefix.as_slice());
    }

    /// The length prefix that slice and array hashing writes first; the
    /// state is left as it is.
    pub fn write_usize(&mut self, len: usize)
        ensures
            final(self)@ == old(self)@,
    {
    }
}

impl Default for IdentityHasher {
    fn default() -> (h: IdentityHasher)
        ensures
            h@ == 0,
    {
        IdentityHasher { state: 0 }
    }
}

// ---------------------------------------------------------------------------
// SynthesisOutcome
// ---------------------------------------------------------------------------

/// Outcome of [`DistinctionEngine::synthesize_novel`]: the child tagged with
/// whether this call inserted it into the engine.
#[derive(Clone, Copy, PartialEq, Eq, Debug)]
pub enum SynthesisOutcome {
    /// This call inserted the child.
    Novel(Distinction),
    /// The child was already present (self-synthesis or saturation).
    Existing(Distinction),
}

impl SynthesisOutcome {
    pub open spec fn spec_distinction(&self) -> Distinction {
        match self {
            SynthesisOutcome::Novel(d) => *d,
            SynthesisOutcome::Existing(d) => *d,
        }
    }

    /// The child distinction, whichever the variant.
    pub fn distinction(&self) -> (d: Distinction)
        ensures
            d == self.spec_distinction(),
    {
        match self {
            SynthesisOutcome::Novel(d) => *d,
            SynthesisOutcome::Existing(d) => *d,
        }
    }

    /// True for `Novel`, false for `Existing`.
    pub fn is_novel(&self) -> (b: bool)
        ensures
            b == (*self is Novel),
    {
        match self {
            SynthesisOutcome::Novel(_) => true,
            SynthesisOutcome::Existing(_) => false,
        }
    }

    /// Consume the outcome, keeping only the child.
    pub fn into_distinction(self) -> (d: Distinction)
        ensures
            d == self.spec_distinction(),
    {
        match self {
            SynthesisOutcome::Novel(d) => d,
            SynthesisOutcome::Existing(d) => d,
        }
    }
}

// ---------------------------------------------------------------------------
// The abstract engine: a parentage map
// ---------------------------------------------------------------------------

/// Abstract engine state: registered bytes mapped to their parent pair.
pub type EngineView = Map<[u8; 16], Option<ParentPair>>;

/// The smaller parent of a parent record.
pub open spec fn parent_lo(p: Option<ParentPair>) -> Distinction {
    match p {
        Some(pp) => pp.0,
        None => spec_d0(),
    }
}

/// The larger parent of a parent record.
pub open spec fn parent_hi(p: Option<ParentPair>) -> Distinction {
    match p {
        Some(pp) => pp.1,
        None => spec_d0(),
    }
}

/// Whether `d` is one of the two parents in the record `p`.
pub open spec fn has_parent(p: Option<ParentPair>, d: Distinction) -> bool {
    match p {
        Some(pp) => pp.0 == d || pp.1 == d,
        None => false,
    }
}

/// The registered children of `d`: every node one of whose parents is `d`.
pub open spec fn children_of(v: EngineView, d: Distinction) -> Set<[u8; 16]> {
    v.dom().filter(|c: [u8; 16]| has_parent(v[c], d))
}

/// Degree (Law 12): the number of registered children, plus the genesis
/// edge for a primordial, plus the two parent edges for any other
/// registered distinction; 0 for bytes the engine does not hold.
pub open spec fn spec_degree(v: EngineView, d: Distinction) -> nat {
    if is_primordial(d) {
        children_of(v, d).len() + 1
    } else if v.contains_key(d@) {
        children_of(v, d).len() + 2
    } else {
        0
    }
}

/// Whether synthesizing `a` with `b` on state `v` inserts a new node.
pub open spec fn synth_is_novel(v: EngineView, a: Distinction, b: Distinction) -> bool {
    a != b && !v.contains_key(child_of(a, b)@)
}

/// The state after synthesizing `a` with `b` on state `v` (Law 7: a
/// repeated or self synthesis leaves the state unchanged).
pub open spec fn synth_view(v: EngineView, a: Distinction, b: Distinction) -> EngineView {
    if synth_is_novel(v, a, b) {
        v.insert(child_of(a, b)@, Some(canonical_pair(a, b)))
    } else {
        v
    }
}

/// `v2` holds everything `v1` holds, unchanged.
pub open spec fn view_extends(v1: EngineView, v2: EngineView) -> bool {
    forall|k: [u8; 16]| #[trigger] v1.contains_key(k) ==> v2.contains_key(k) && v2[k] == v1[k]
}

/// Structural shape every reachable engine state has: primordials without
/// parents; every other node carries a canonical pair of registered
/// parents, strictly ordered, whose synthesis child is the node itself.
pub open spec fn view_wf(v: EngineView) -> bool {
    &&& v.dom().finite()
    &&& v.contains_key(d0_bytes()) && v[d0_bytes()] is None
    &&& v.contains_key(d1_bytes()) && v[d1_bytes()] is None
    &&& forall|k: [u8; 16]| #[trigger]
        v.contains_key(k) && k != d0_bytes() && k != d1_bytes() ==> {
            &&& v[k] is Some
            &&& v.contains_key(parent_lo(v[k])@)
            &&& v.contains_key(parent_hi(v[k])@)
            &&& bytes_lt(parent_lo(v[k])@@, parent_hi(v[k])@@)
            &&& child_of(parent_lo(v[k]), parent_hi(v[k]))@ == k
        }
}

/// Inserting a fresh node adds it to the children of exactly its parents.
pub proof fn lemma_children_insert(v: EngineView, k: [u8; 16], pp: ParentPair, x: Distinction)
    requires
        v.dom().finite(),
        !v.contains_key(k),
    ensures
        children_of(v.insert(k, Some(pp)), x).len() == children_of(v, x).len() + (if has_parent(
            Some(pp),
            x,
        ) {
            1int
        } else {
            0int
        }),
        children_of(v, x).finite(),
{
    let v2 = v.insert(k, Some(pp));
    v.dom().lemma_len_filter(|c: [u8; 16]| has_parent(v[c], x));
    if has_parent(Some(pp), x) {
        assert(children_of(v2, x) =~= children_of(v, x).insert(k));
    } else {
        assert(children_of(v2, x) =~= children_of(v, x));
    }
}

/// In a well-formed state, bytes the state does not hold are nobody's
/// parent.
pub proof fn lemma_no_children_outside(v: EngineView, x: Distinction)
    requires
        view_wf(v),
        !v.contains_key(x@),
    ensures
        children_of(v, x) =~= Set::<[u8; 16]>::empty(),
{
    assert forall|c: [u8; 16]| #[trigger] children_of(v, x).contains(c) implies false by {
        if c != d0_bytes() && c != d1_bytes() {
            assert(v.contains_key(parent_lo(v[c])@));
            assert(v.contains_key(parent_hi(v[c])@));
        }
    }
}

/// The children of `x` never include the primordials, so there are at
/// most `len - 2` of them.
pub proof fn lemma_children_bound(v: EngineView, x: Distinction)
    requires
        view_wf(v),
    ensures
        children_of(v, x).finite(),
        children_of(v, x).len() + 2 <= v.dom().len(),
        !children_of(v, x).contains(x@) ==> children_of(v, x).len() + 2 <= v.dom().len(),
{
    let others = v.dom().remove(d0_bytes()).remove(d1_bytes());
    assert(d0_bytes() != d1_bytes()) by {
        assert(d0_bytes()[0] != d1_bytes()[0]);
    }
    assert(children_of(v, x).subset_of(others));
    vstd::set_lib::lemma_len_subset(children_of(v, x), others);
}

/// Synthesis keeps the structural shape, keeps every node, and registers
/// the child.
pub proof fn lemma_synth_view(v: EngineView, a: Distinction, b: Distinction)
    requires
        view_wf(v),
        v.contains_key(a@),
        v.contains_key(b@),
    ensures
        view_wf(synth_view(v, a, b)),
        view_extends(v, synth_view(v, a, b)),
        synth_view(v, a, b).contains_key(child_of(a, b)@),
        synth_view(v, a, b).dom().len() <= v.dom().len() + 1,
{
    if synth_is_novel(v, a, b) {
        lemma_canonical_pair(a, b);
        let k = child_of(a, b)@;
        let v2 = synth_view(v, a, b);
        assert forall|x: [u8; 16]| #[trigger]
            v2.contains_key(x) && x != d0_bytes() && x != d1_bytes() implies {
            &&& v2[x] is Some
            &&& v2.contains_key(parent_lo(v2[x])@)
            &&& v2.contains_key(parent_hi(v2[x])@)
            &&& bytes_lt(parent_lo(v2[x])@@, parent_hi(v2[x])@@)
            &&& child_of(parent_lo(v2[x]), parent_hi(v2[x]))@ == x
        } by {
            if x == k {
            } else {
                assert(v.contains_key(x));
            }
        }
    }
}

/// Axiom 2 (commutativity): the order of the operands changes neither the
/// child nor the state that synthesis leaves.
pub proof fn lemma_synthesis_commutes(v: EngineView, a: Distinction, b: Distinction)
    ensures
        child_of(a, b) == child_of(b, a),
        synth_view(v, a, b) == synth_view(v, b, a),
{
    if a != b {
        lemma_canonical_pair(a, b);
    }
}

/// Axiom 3 (irreflexivity): a distinction synthesized with itself is
/// itself, and the state is unchanged.
pub proof fn lemma_synthesis_irreflexive(v: EngineView, a: Distinction)
    ensures
        child_of(a, a) == a,
        synth_view(v, a, a) == v,
{
}

/// Law 7 (saturation): repeating a synthesis adds nothing; the repeat is
/// not novel and leaves the state as the first call left it.
pub proof fn lemma_synthesis_saturates(v: EngineView, a: Distinction, b: Distinction)
    ensures
        !synth_is_novel(synth_view(v, a, b), a, b),
        synth_view(synth_view(v, a, b), a, b) == synth_view(v, a, b),
{
}

/// `rk` ranks every parent strictly below its child.
pub open spec fn is_ranked(v: EngineView, rk: Map<[u8; 16], nat>) -> bool {
    forall|k: [u8; 16]| #[trigger]
        v.contains_key(k) && v[k] is Some ==> rk[parent_lo(v[k])@] < rk[k] && rk[parent_hi(v[k])@] < rk[k]
}

/// `p` lists the parentage of state `v`: one entry per registered
/// non-primordial, each child once, with its recorded parents, in any
/// order.
pub open spec fn is_parentage_of(v: EngineView, p: Seq<(Distinction, ParentPair)>) -> bool {
    &&& forall|i: int| #![trigger p[i]] 0 <= i < p.len() ==> v.contains_key(p[i].0@) && v[p[i].0@] == Some(p[i].1)
    &&& forall|k: [u8; 16]| #[trigger] v.contains_key(k) && v[k] is Some ==> exists|i: int|
        0 <= i < p.len() && p[i].0@ == k
    &&& forall|i: int, j: int| 0 <= i < p.len() && 0 <= j < p.len() && i != j ==> #[trigger] p[i].0 != #[trigger] p[j].0
}

// ---------------------------------------------------------------------------
// Engine
// ---------------------------------------------------------------------------

/// Per-distinction record stored in the engine's node map.
#[derive(Clone, Copy)]
pub struct EngineNode {
    /// `None` for the primordials, the canonical parent pair otherwise.
    pub parents: Option<ParentPair>,
    /// Number of novel syntheses in which this node was a parent.
    pub degree: usize,
}

/// The substrate engine: two primordial constants and one node map from
/// 16-byte identity to [`EngineNode`].
pub struct DistinctionEngine {
    d0: Distinction,
    d1: Distinction,
    nodes: DashMap<[u8; 16], EngineNode>,
    rank: Ghost<Map<[u8; 16], nat>>,
}

impl View for DistinctionEngine {
    type V = EngineView;

    closed spec fn view(&self) -> EngineView {
        Map::new(
            |k: [u8; 16]| node_map_contents(self.nodes).contains_key(k),
            |k: [u8; 16]| node_map_contents(self.nodes)[k].parents,
        )
    }
}

impl DistinctionEngine {
    /// The engine's internal invariant.
    pub closed spec fn wf(&self) -> bool {
        let c = node_map_contents(self.nodes);
        let r = self.rank@;
        &&& self.d0 == spec_d0()
        &&& self.d1 == spec_d1()
        &&& c.dom().finite()
        &&& c.dom().len() <= usize::MAX
        &&& view_wf(self@)
        &&& r.dom() == c.dom()
        &&& forall|k: [u8; 16]| #[trigger] r.contains_key(k) ==> r[k] < c.dom().len()
        &&& forall|k: [u8; 16]| #[trigger] c.contains_key(k) ==> c[k].degree == children_of(
            self@,
            Distinction::mk(k),
        ).len()
        &&& forall|k: [u8; 16]| #[trigger]
            c.contains_key(k) && c[k].parents is Some ==> r[parent_lo(c[k].parents)@] < r[k]
                && r[parent_hi(c[k].parents)@] < r[k]
    }

    /// A well-formed engine's abstract state has the structural shape.
    pub proof fn lemma_wf_view(&self)
        requires
            self.wf(),
        ensures
            view_wf(self@),
    {
    }

    /// Every parent ranks below its child: the engine's history is acyclic.
    pub proof fn lemma_ranked(&self)
        requires
            self.wf(),
        ensures
            exists|rk: Map<[u8; 16], nat>| is_ranked(self@, rk),
    {
        self.lemma_view_dom();
        let c = node_map_contents(self.nodes);
        assert forall|k: [u8; 16]| #[trigger] self@.contains_key(k) && self@[k] is Some implies self.rank@[parent_lo(
            self@[k],
        )@] < self.rank@[k] && self.rank@[parent_hi(self@[k])@] < self.rank@[k] by {
            assert(c.contains_key(k));
        }
        assert(is_ranked(self@, self.rank@));
    }

    /// A well-formed engine holds finitely many distinctions, at most
    /// `usize::MAX`.
    pub proof fn lemma_len_bound(&self)
        requires
            self.wf(),
        ensures
            self@.dom().finite(),
            self@.dom().len() <= usize::MAX,
    {
        self.lemma_view_dom();
    }

    proof fn lemma_view_dom(&self)
        ensures
            self@.dom() == node_map_contents(self.nodes).dom(),
            forall|k: [u8; 16]| #[trigger] self@.contains_key(k) ==> self@[k] == node_map_contents(self.nodes)[k].parents,
    {
        assert(self@.dom() =~= node_map_contents(self.nodes).dom());
    }

    /// Structural laws of every reachable engine (a fresh one, or one that
    /// `synthesize` calls led to; both keep `wf`): the two primordials are
    /// registered without parents, every other registered distinction has
    /// parents (binary parentage), and there are at least two, so the
    /// relationships number `2 * distinction_count - 3` (Law 6), whatever
    /// the engine's size.
    pub proof fn lemma_structural_laws(&self)
        requires
            self.wf(),
        ensures
            self@.contains_key(d0_bytes()) && self@[d0_bytes()] is None,
            self@.contains_key(d1_bytes()) && self@[d1_bytes()] is None,
            forall|k: [u8; 16]| #[trigger] self@.contains_key(k) ==> (self@[k] is Some <==> (k != d0_bytes()
                && k != d1_bytes())),
            self@.dom().len() >= 2,
            relationships(self@) == 2 * self@.dom().len() - 3,
    {
        self.lemma_len_at_least_two();
        self.lemma_view_dom();
        let v = self@;
        let p = v.dom().filter(|k: [u8; 16]| v[k] is Some);
        let o = v.dom().remove(d0_bytes()).remove(d1_bytes());
        assert(d0_bytes() != d1_bytes()) by {
            assert(d0_bytes()[0] != d1_bytes()[0]);
        }
        assert(p =~= o);
        assert(v.dom().finite());
    }

    /// Construct a fresh engine holding only the two primordials.
    pub fn new() -> (e: DistinctionEngine)
        ensures
            e.wf(),
            e@ =~= Map::<[u8; 16], Option<ParentPair>>::empty().insert(d0_bytes(), None).insert(
                d1_bytes(),
                None,
            ),
    {
        broadcast use vstd::array::group_array_axioms;
        let b0: [u8; 16] = [0u8; 16];
        let b1: [u8; 16] = [1u8, 0u8, 0u8, 0u8, 0u8, 0u8, 0u8, 0u8, 0u8, 0u8, 0u8, 0u8, 0u8, 0u8, 0u8, 0u8];
        assert(b0 =~= d0_bytes());
        assert(b1 =~= d1_bytes());
        let mut nodes = node_map_new();
        node_map_insert(&mut nodes, b0, EngineNode { parents: None, degree: 0 });
        node_map_insert(&mut nodes, b1, EngineNode { parents: None, degree: 0 });
        let ghost rank = Map::<[u8; 16], nat>::empty().insert(b0, 0nat).insert(b1, 0nat);
        let e = DistinctionEngine {
            d0: Distinction::from_bytes_unchecked(b0),
            d1: Distinction::from_bytes_unchecked(b1),
            nodes,
            rank: Ghost(rank),
        };
        proof {
            let c = node_map_contents(e.nodes);
            assert(b0 != b1) by {
                assert(b0[0] != b1[0]);
            }
            e.lemma_view_dom();
            assert(c.dom() =~= set![b0, b1]);
            assert(rank.dom() =~= c.dom());
            assert forall|k: [u8; 16]| #[trigger] c.contains_key(k) implies c[k].degree
                == children_of(e@, Distinction::mk(k)).len() by {
                assert(children_of(e@, Distinction::mk(k)) =~= Set::empty());
            }
            assert(view_wf(e@));
            assert(e.wf());
        }
        e
    }

    /// The first primordial.
    pub fn d0(&self) -> (d: Distinction)
        requires
            self.wf(),
        ensures
            d == spec_d0(),
    {
        self.d0
    }

    /// The second primordial.
    pub fn d1(&self) -> (d: Distinction)
        requires
            self.wf(),
        ensures
            d == spec_d1(),
    {
        self.d1
    }

    /// The four axioms and the saturation law in one step: returns the child
    /// and whether this call inserted it.
    pub(crate) fn synthesize_inner(&mut self, a: Distinction, b: Distinction) -> (r: (
        Distinction,
        bool,
    ))
        requires
            old(self).wf(),
            old(self)@.contains_key(a@),
            old(self)@.contains_key(b@),
        ensures
            final(self).wf(),
            r.0 == child_of(a, b),
            r.1 == synth_is_novel(old(self)@, a, b),
            final(self)@ == synth_view(old(self)@, a, b),
    {
        broadcast use vstd::array::group_array_axioms;

        if a.same_as(&b) {
            return (a, false);
        }
        let ghost v0 = self@;
        let ghost c0 = node_map_contents(self.nodes);
        let ghost r0 = self.rank@;
        proof {
            lemma_canonical_pair(a, b);
            self.lemma_view_dom();
        }
        let less = bytes_less(b.as_bytes(), a.as_bytes());
        let (first, second) = if less {
            (b, a)
        } else {
            (a, b)
        };
        assert((first, second) == canonical_pair(a, b));
        let fb = first.as_bytes();
        let sb = second.as_bytes();
        let mut input = [0u8; 32];
        for i in 0..16
            invariant
                forall|j: int| 0 <= j < i ==> input[j] == fb[j] && input[j + 16] == sb[j],
        {
            input[i] = fb[i];
            input[i + 16] = sb[i];
        }
        assert(input@ =~= synthesis_input(a, b));
        let digest = sha256(input.as_slice());
        let mut new_bytes = [0u8; 16];
        for i in 0..16
            invariant
                forall|j: int| 0 <= j < i ==> new_bytes[j] == digest[j],
        {
            new_bytes[i] = digest[i];
        }
        proof {
            lemma_arr16(digest@);
            assert(new_bytes =~= arr16(sha256_digest(synthesis_input(a, b))));
        }
        let child = Distinction::from_bytes_unchecked(new_bytes);
        assert(child == child_of(a, b));

        // Law 7: a child already present contributes nothing.
        if node_map_contains(&self.nodes, &new_bytes) {
            return (child, false);
        }

        let ghost old_len = c0.dom().len();
        let ghost pair = (first, second);
        node_map_insert(&mut self.nodes, new_bytes, EngineNode { parents: Some((first, second)), degree: 0 });
        let ghost c1 = node_map_contents(self.nodes);
        let ghost v1 = v0.insert(new_bytes, Some(pair));
        let count = node_map_len(&self.nodes);
        proof {
            assert(c1.dom() =~= c0.dom().insert(new_bytes));
            lemma_children_insert(v0, new_bytes, pair, first);
            lemma_children_insert(v0, new_bytes, pair, second);
            assert(children_of(v1, first).subset_of(v1.dom()));
            assert(children_of(v1, second).subset_of(v1.dom()));
            assert(v1.dom() =~= c1.dom());
            vstd::set_lib::lemma_len_subset(children_of(v1, first), v1.dom());
            vstd::set_lib::lemma_len_subset(children_of(v1, second), v1.dom());
            assert(c0[*fb].degree == children_of(v0, Distinction::mk(*fb)).len());
            assert(Distinction::mk(*fb) == first);
            assert(Distinction::mk(*sb) == second);
        }
        let n1 = node_map_get(&self.nodes, fb).unwrap();
        node_map_insert(&mut self.nodes, *fb, EngineNode { parents: n1.parents, degree: n1.degree + 1 });
        let n2 = node_map_get(&self.nodes, sb).unwrap();
        node_map_insert(&mut self.nodes, *sb, EngineNode { parents: n2.parents, degree: n2.degree + 1 });
        self.rank = Ghost(r0.insert(new_bytes, old_len));
        proof {
            let c2 = node_map_contents(self.nodes);
            let r2 = self.rank@;
            assert(*fb != *sb);
            assert(c2.dom() =~= c1.dom());
            assert(self@ =~= v1) by {
                assert forall|k: [u8; 16]| #[trigger] self@.contains_key(k) implies self@[k] == v1[k] by {
                    self.lemma_view_dom();
                }
                self.lemma_view_dom();
            }
            assert(v1 == synth_view(v0, a, b));
            lemma_no_children_outside(v0, child);
            lemma_children_insert(v0, new_bytes, pair, child);
            assert(!has_parent(Some(pair), child));
            assert forall|k: [u8; 16]| #[trigger] c2.contains_key(k) implies c2[k].degree
                == children_of(self@, Distinction::mk(k)).len() by {
                lemma_children_insert(v0, new_bytes, pair, Distinction::mk(k));
                if k == new_bytes {
                } else if k == *fb {
                } else if k == *sb {
                } else {
                    assert(Distinction::mk(k) != first);
                    assert(Distinction::mk(k) != second);
                }
            }
            assert(view_wf(self@)) by {
                assert forall|k: [u8; 16]| #[trigger]
                    self@.contains_key(k) && k != d0_bytes() && k != d1_bytes() implies {
                    &&& self@[k] is Some
                    &&& self@.contains_key(parent_lo(self@[k])@)
                    &&& self@.contains_key(parent_hi(self@[k])@)
                    &&& bytes_lt(parent_lo(self@[k])@@, parent_hi(self@[k])@@)
                    &&& child_of(parent_lo(self@[k]), parent_hi(self@[k]))@ == k
                } by {
                    if k == new_bytes {
                    } else {
                        assert(v0.contains_key(k));
                    }
                }
            }
            assert(r2.dom() =~= c2.dom());
            assert forall|k: [u8; 16]| #[trigger]
                c2.contains_key(k) && c2[k].parents is Some implies r2[parent_lo(c2[k].parents)@] < r2[k]
                && r2[parent_hi(c2[k].parents)@] < r2[k] by {
                if k == new_bytes {
                    assert(r0.contains_key(*fb));
                    assert(r0.contains_key(*sb));
                } else {
                    assert(c0.contains_key(k));
                    assert(c2[k].parents == c0[k].parents);
                    assert(v0.contains_key(parent_lo(c0[k].parents)@));
                    assert(v0.contains_key(parent_hi(c0[k].parents)@));
                }
            }
        }
        (child, true)
    }

    /// Synthesize two registered distinctions into their child (Axioms 1-4,
    /// Law 7). The child is a pure function of `(a, b)`; the engine gains
    /// the child exactly when it did not hold it and `a != b`.
    pub fn synthesize(&mut self, a: Distinction, b: Distinction) -> (d: Distinction)
        requires
            old(self).wf(),
            old(self)@.contains_key(a@),
            old(self)@.contains_key(b@),
        ensures
            final(self).wf(),
            d == child_of(a, b),
            final(self)@ == synth_view(old(self)@, a, b),
            final(self)@.contains_key(d@),
    {
        let r = self.synthesize_inner(a, b);
        proof {
            self.lemma_child_registered(old(self)@, a, b);
        }
        r.0
    }

    /// Same as [`synthesize`](Self::synthesize), tagged with whether this
    /// call inserted the child (Law 7's binary).
    pub fn synthesize_novel(&mut self, a: Distinction, b: Distinction) -> (o: SynthesisOutcome)
        requires
            old(self).wf(),
            old(self)@.contains_key(a@),
            old(self)@.contains_key(b@),
        ensures
            final(self).wf(),
            o.spec_distinction() == child_of(a, b),
            (o is Novel) == synth_is_novel(old(self)@, a, b),
            final(self)@ == synth_view(old(self)@, a, b),
            final(self)@.contains_key(o.spec_distinction()@),
    {
        let r = self.synthesize_inner(a, b);
        proof {
            self.lemma_child_registered(old(self)@, a, b);
        }
        if r.1 {
            SynthesisOutcome::Novel(r.0)
        } else {
            SynthesisOutcome::Existing(r.0)
        }
    }

    proof fn lemma_child_registered(&self, v0: EngineView, a: Distinction, b: Distinction)
        requires
            view_wf(v0),
            v0.contains_key(a@),
            v0.contains_key(b@),
            self@ == synth_view(v0, a, b),
        ensures
            self@.contains_key(child_of(a, b)@),
    {
    }

    /// The canonical parent pair of a registered non-primordial; `None` for
    /// the primordials and for bytes this engine does not hold.
    pub fn parents_of(&self, d: Distinction) -> (r: Option<ParentPair>)
        requires
            self.wf(),
        ensures
            r == (if self@.contains_key(d@) {
                self@[d@]
            } else {
                None
            }),
    {
        proof {
            self.lemma_view_dom();
        }
        match node_map_get(&self.nodes, d.as_bytes()) {
            Some(node) => node.parents,
            None => None,
        }
    }

    /// Degree of a distinction (Law 12): registered children, plus one for
    /// the genesis edge of a primordial or two parent edges otherwise; 0
    /// for bytes this engine does not hold.
    pub fn degree(&self, d: Distinction) -> (n: usize)
        requires
            self.wf(),
        ensures
            n == spec_degree(self@, d),
    {
        proof {
            self.lemma_view_dom();
            lemma_children_bound(self@, d);
        }
        if d.same_as(&self.d0) || d.same_as(&self.d1) {
            return match node_map_get(&self.nodes, d.as_bytes()) {
                Some(node) => node.degree + 1,
                None => 1,
            };
        }
        match node_map_get(&self.nodes, d.as_bytes()) {
            Some(node) => {
                proof {
                    self.lemma_not_own_child(d);
                }
                node.degree + 2
            },
            None => 0,
        }
    }

    /// A registered non-primordial is not among its own children, so it
    /// has at most `len - 3` of them.
    proof fn lemma_not_own_child(&self, d: Distinction)
        requires
            self.wf(),
            self@.contains_key(d@),
            !is_primordial(d),
        ensures
            children_of(self@, d).len() + 3 <= self@.dom().len(),
    {
        self.lemma_view_dom();
        let c = node_map_contents(self.nodes);
        let others = self@.dom().remove(d0_bytes()).remove(d1_bytes()).remove(d@);
        assert(d0_bytes() != d1_bytes()) by {
            assert(d0_bytes()[0] != d1_bytes()[0]);
        }
        assert(d@ != d0_bytes());
        assert(d@ != d1_bytes());
        assert forall|k: [u8; 16]| #[trigger] children_of(self@, d).contains(k) implies others.contains(k) by {
            if k == d@ {
                assert(c[k].parents is Some);
            }
        }
        vstd::set_lib::lemma_len_subset(children_of(self@, d), others);
    }

    /// Number of registered distinctions, primordials included.
    pub fn distinction_count(&self) -> (n: usize)
        requires
            self.wf(),
        ensures
            n == self@.dom().len(),
    {
        proof {
            self.lemma_view_dom();
        }
        node_map_len(&self.nodes)
    }

    /// Number of relationships: two parent edges per non-primordial plus
    /// the genesis edge, `2 * distinction_count() - 3` (Law 6).
    pub fn relationship_count(&self) -> (n: usize)
        requires
            self.wf(),
            2 * self@.dom().len() <= usize::MAX + 3,
        ensures
            n == 2 * self@.dom().len() - 3,
            n == relationships(self@),
    {
        let len = self.distinction_count();
        proof {
            self.lemma_len_at_least_two();
            self.lemma_structural_laws();
        }
        (len - 2) * 2 + 1
    }

    /// The `Debug` rendering: a summary of the two counts, not a dump.
    pub fn to_debug_string(&self) -> (s: String)
        requires
            self.wf(),
            2 * self@.dom().len() <= usize::MAX + 3,
        ensures
            s@ == "DistinctionEngine { distinction_count: "@ + decimal_chars(self@.dom().len()) + ", relationship_count: "@
                + decimal_chars((2 * self@.dom().len() - 3) as nat) + ", .. }"@,
    {
        let n = self.distinction_count();
        let r = self.relationship_count();
        let mut s = String::from_str("DistinctionEngine { distinction_count: ");
        push_decimal(&mut s, n as u64);
        s.append(", relationship_count: ");
        push_decimal(&mut s, r as u64);
        s.append(", .. }");
        s
    }

    proof fn lemma_len_at_least_two(&self)
        requires
            self.wf(),
        ensures
            self@.dom().len() >= 2,
    {
        assert(d0_bytes() != d1_bytes()) by {
            assert(d0_bytes()[0] != d1_bytes()[0]);
        }
        let both = set![d0_bytes(), d1_bytes()];
        assert(both.subset_of(self@.dom()));
        vstd::set_lib::lemma_len_subset(both, self@.dom());
    }

    /// Cross the trust boundary: bytes this engine holds become a
    /// [`Distinction`]; any other bytes are rejected.
    pub fn verify(&self, raw: RawDistinctionId) -> (r: Result<Distinction, VerifyError>)
        requires
            self.wf(),
        ensures
            r is Ok <==> self@.contains_key(raw@),
            r matches Ok(d) ==> d@ == raw@,
            r matches Err(e) ==> e == VerifyError::ForeignBytes,
    {
        let d = Distinction::from_bytes_unchecked(*raw.as_bytes());
        if self.has(d) {
            Ok(d)
        } else {
            Err(VerifyError::ForeignBytes)
        }
    }

    /// Every parent-child relationship: one `(child, (min, max))` entry per
    /// registered non-primordial, each child once. The order is whatever the
    /// node map's shards yield.
    pub fn snapshot_parentage(&self) -> (r: Vec<(Distinction, ParentPair)>)
        requires
            self.wf(),
        ensures
            is_parentage_of(self@, r@),
    {
        proof {
            self.lemma_view_dom();
        }
        let entries = node_map_entries(&self.nodes);
        let ghost c = node_map_contents(self.nodes);
        let mut out: Vec<(Distinction, ParentPair)> = Vec::new();
        #[verifier::loop_isolation(false)]
        for i in 0..entries.len()
            invariant
                c == node_map_contents(self.nodes),
                forall|j: int| #![trigger out@[j]] 0 <= j < out@.len() ==> exists|e: int|
                    0 <= e < i && entries@[e].0 == out@[j].0@ && c[entries@[e].0].parents == Some(out@[j].1),
                forall|e: int| #![trigger entries@[e]] 0 <= e < i && entries@[e].1.parents is Some ==>
                    exists|j: int| 0 <= j < out@.len() && out@[j].0@ == entries@[e].0,
                forall|j1: int, j2: int|
                    0 <= j1 < out@.len() && 0 <= j2 < out@.len() && j1 != j2 ==> #[trigger] out@[j1].0
                        != #[trigger] out@[j2].0,
        {
            let (key, node) = entries[i];
            match node.parents {
                Some(pp) => {
                    let ghost before = out@;
                    proof {
                        assert forall|j: int| 0 <= j < before.len() implies #[trigger] before[j].0@ != key by {
                            let e = choose|e: int| 0 <= e < i && entries@[e].0 == before[j].0@
                                && c[entries@[e].0].parents == Some(before[j].1);
                            assert(entries@[e].0 != entries@[i as int].0);
                        }
                    }
                    out.push((Distinction::from_bytes_unchecked(key), pp));
                    proof {
                        assert(out@[before.len() as int].0@ == key);
                        assert forall|j: int| #![trigger out@[j]] 0 <= j < out@.len() implies exists|e: int|
                            0 <= e < i + 1 && entries@[e].0 == out@[j].0@ && c[entries@[e].0].parents == Some(
                                out@[j].1,
                            ) by {
                            if j == before.len() {
                                assert(entries@[i as int].0 == out@[j].0@);
                            } else {
                                assert(out@[j] == before[j]);
                            }
                        }
                        assert forall|e: int| #![trigger entries@[e]] 0 <= e < i + 1 && entries@[e].1.parents is Some
                            implies exists|j: int| 0 <= j < out@.len() && out@[j].0@ == entries@[e].0 by {
                            if e == i {
                                assert(out@[before.len() as int].0@ == entries@[e].0);
                            } else {
                                let j = choose|j: int| 0 <= j < before.len() && before[j].0@ == entries@[e].0;
                                assert(out@[j] == before[j]);
                            }
                        }
                        assert forall|j1: int, j2: int|
                            0 <= j1 < out@.len() && 0 <= j2 < out@.len() && j1 != j2 implies #[trigger] out@[j1].0
                                != #[trigger] out@[j2].0 by {
                            if j1 == before.len() {
                                assert(before[j2].0@ != key);
                            } else if j2 == before.len() {
                                assert(before[j1].0@ != key);
                            }
                        }
                    }
                },
                None => {},
            }
        }
        proof {
            assert forall|k: [u8; 16]| #[trigger]
                self@.contains_key(k) && self@[k] is Some implies exists|i: int|
                0 <= i < out@.len() && out@[i].0@ == k by {
                let e = choose|e: int| 0 <= e < entries@.len() && entries@[e].0 == k;
                assert(entries@[e].1.parents is Some);
            }
        }
        out
    }

    /// Every registered distinction, each once, in the node map's shard
    /// order.
    pub fn snapshot_distinctions(&self) -> (r: Vec<Distinction>)
        requires
            self.wf(),
        ensures
            r@.len() == self@.dom().len(),
            forall|i: int| #![trigger r@[i]] 0 <= i < r@.len() ==> self@.contains_key(r@[i]@),
            forall|k: [u8; 16]| #[trigger] self@.contains_key(k) ==> exists|i: int|
                0 <= i < r@.len() && r@[i]@ == k,
            forall|i: int, j: int|
                0 <= i < r@.len() && 0 <= j < r@.len() && i != j ==> #[trigger] r@[i] != #[trigger] r@[j],
    {
        proof {
            self.lemma_view_dom();
        }
        let entries = node_map_entries(&self.nodes);
        let mut out: Vec<Distinction> = Vec::new();
        #[verifier::loop_isolation(false)]
        for i in 0..entries.len()
            invariant
                out@.len() == i,
                forall|j: int| #![trigger out@[j]] 0 <= j < i ==> out@[j]@ == entries@[j].0,
        {
            out.push(Distinction::from_bytes_unchecked(entries[i].0));
        }
        proof {
            assert forall|k: [u8; 16]| #[trigger] self@.contains_key(k) implies exists|i: int|
                0 <= i < out@.len() && out@[i]@ == k by {
                let e = choose|e: int| 0 <= e < entries@.len() && entries@[e].0 == k;
                assert(out@[e]@ == k);
            }
            assert forall|i: int, j: int|
                0 <= i < out@.len() && 0 <= j < out@.len() && i != j implies #[trigger] out@[i]
                != #[trigger] out@[j] by {
                assert(entries@[i].0 != entries@[j].0);
            }
        }
        out
    }

    /// Verify structural law `r = 2d - 3`: every node but the two
    /// primordials carries parents. Always `Ok` on a well-formed engine.
    #[verifier::spinoff_prover]
    #[verifier::rlimit(40)]
    pub fn check_structural_invariant(&self) -> (r: Result<(), InvariantError>)
        requires
            self.wf(),
        ensures
            r is Ok,
    {
        proof {
            self.lemma_view_dom();
        }
        let d_count = node_map_len(&self.nodes);
        let entries = node_map_entries(&self.nodes);
        let ghost c = node_map_contents(self.nodes);
        let mut with_parents: usize = 0;
        let ghost mut seen: Set<[u8; 16]> = Set::empty();
        #[verifier::loop_isolation(false)]
        for i in 0..entries.len()
            invariant
                c == node_map_contents(self.nodes),
                seen.finite(),
                with_parents == seen.len(),
                seen =~= Set::new(
                    |k: [u8; 16]| exists|j: int| 0 <= j < i && entries@[j].0 == k && entries@[j].1.parents is Some,
                ),
                seen.subset_of(c.dom()),
                with_parents <= i,
        {
            proof {
                assert(c.contains_key(entries@[i as int].0));
            }
            if entries[i].1.parents.is_some() {
                proof {
                    let k = entries@[i as int].0;
                    assert(!seen.contains(k)) by {
                        if seen.contains(k) {
                            let j = choose|j: int| 0 <= j < i && entries@[j].0 == k && entries@[j].1.parents is Some;
                            assert(j != i as int);
                            assert(entries@[j].0 != entries@[i as int].0);
                        }
                    }
                    seen = seen.insert(k);
                }
                with_parents = with_parents + 1;
            }
            proof {
                assert(seen =~= Set::new(
                    |k: [u8; 16]| exists|j: int| 0 <= j < i + 1 && entries@[j].0 == k && entries@[j].1.parents is Some,
                ));
            }
        }
        proof {
            let others = c.dom().remove(d0_bytes()).remove(d1_bytes());
            assert(d0_bytes() != d1_bytes()) by {
                assert(d0_bytes()[0] != d1_bytes()[0]);
            }
            assert(seen =~= others) by {
                assert forall|k: [u8; 16]| others.contains(k) implies #[trigger] seen.contains(k) by {
                    let e = choose|e: int| 0 <= e < entries@.len() && entries@[e].0 == k;
                    assert(self@.contains_key(k));
                }
            }
        }
        let p_plus_two = with_parents + 2;
        if d_count != p_plus_two {
            return Err(InvariantError::BinaryParentageMismatch {
                all_distinctions: d_count,
                parents_of_plus_two: p_plus_two,
            });
        }
        Ok(())
    }

    /// Whether `d` is registered in this engine.
    pub fn has(&self, d: Distinction) -> (b: bool)
        requires
            self.wf(),
        ensures
            b == self@.contains_key(d@),
    {
        proof {
            self.lemma_view_dom();
        }
        node_map_contains(&self.nodes, d.as_bytes())
    }
}

} // verus!
