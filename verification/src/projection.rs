//! The projection API, the read-dual of `synthesize`: a coherent read of
//! the append-only distinction graph from a chosen root, at a chosen
//! boundary, in a chosen direction, over a chosen signal.
//!
//! A projection is a pure function of the engine's parentage state and
//! its spec `(root, boundary, direction, signal)`: the cone it covers is
//! [`cone_set`](crate::cone::cone_set), its entries are listed in
//! ascending byte order, and its wire bytes and identity are functions of
//! those alone, so engines with the same synthesis history agree on them
//! byte for byte.

use vstd::prelude::*;
use std::marker::PhantomData;
use std::sync::Arc;
use vstd::bytes::{spec_u64_to_le_bytes, spec_u64_from_le_bytes, spec_u32_to_le_bytes, u64_to_le_bytes, u64_from_le_bytes};
use crate::distinction::{
    Distinction, RawDistinctionId, ParentPair, arr16, lemma_arr16, bytes_lt, spec_d0, spec_d1, lemma_bytes_lt_trans, lemma_bytes_lt_asym, lemma_bytes_lt_total,
};
use crate::engine::{DistinctionEngine, EngineView, InvariantError, VerifyError, spec_degree, is_parentage_of, synth_view};
use crate::replay::fresh_view;
use crate::cone::{cone_set, first_at, lemma_first_at_unique, traverse_cone};
use crate::bindings::{sha256, sha256_digest, hex_chars};
use crate::text::{push_hex, push_decimal, push_byte_list, decimal_chars, byte_list_chars, debug_chars};
use vstd::string::StringExecFns;

pub(crate) mod private;

pub use private::Sealed;

verus! {

broadcast use crate::distinction::group_distinction;

/// `SHA-256("koru:signal:v1:adjacency")[..16]`.
pub const ADJACENCY_TYPE_ID: [u8; 16] = [208, 185, 210, 86, 47, 219, 44, 63, 63, 164, 184, 163, 37, 139, 119, 129];

/// `SHA-256("koru:signal:v1:degree")[..16]`.
pub const DEGREE_TYPE_ID: [u8; 16] = [62, 0, 168, 0, 141, 229, 206, 163, 228, 104, 15, 112, 202, 14, 181, 102];

/// `SHA-256("koru:signal:v1:hop_distance")[..16]`.
pub const HOPDISTANCE_TYPE_ID: [u8; 16] = [239, 98, 9, 69, 48, 159, 195, 83, 226, 216, 248, 203, 177, 211, 144, 118];

/// Domain-separated tag of [`Adjacency`]: `koru:signal:v1:adjacency`.
pub const ADJACENCY_TAG: [u8; 24] = [
    107, 111, 114, 117, 58, 115, 105, 103, 110, 97, 108, 58, 118, 49, 58, 97, 100, 106, 97, 99, 101, 110, 99, 121,
];

/// Domain-separated tag of [`Degree`]: `koru:signal:v1:degree`.
pub const DEGREE_TAG: [u8; 21] = [
    107, 111, 114, 117, 58, 115, 105, 103, 110, 97, 108, 58, 118, 49, 58, 100, 101, 103, 114, 101, 101,
];

/// Domain-separated tag of [`HopDistance`]: `koru:signal:v1:hop_distance`.
pub const HOPDISTANCE_TAG: [u8; 27] = [
    107, 111, 114, 117, 58, 115, 105, 103, 110, 97, 108, 58, 118, 49, 58, 104, 111, 112, 95, 100, 105, 115, 116,
    97, 110, 99, 101,
];

/// Append `b` to `out`.
pub(crate) fn push_bytes(out: &mut Vec<u8>, b: &[u8])
    ensures
        final(out)@ == old(out)@ + b@,
{
    let mut i: usize = 0;
    while i < b.len()
        invariant
            0 <= i <= b@.len(),
            out@ == old(out)@ + b@.take(i as int),
        decreases b@.len() - i,
    {
        out.push(b[i]);
        i = i + 1;
        proof {
            assert(b@.take(i as int) =~= b@.take(i - 1).push(b@[i - 1]));
        }
    }
    proof {
        assert(b@.take(b@.len() as int) =~= b@);
    }
}

// ---------------------------------------------------------------------------
// CanonicalBytes
// ---------------------------------------------------------------------------

/// Byte-canonical encoding of a value, for wire transit and hashing. An
/// implementation returns bytes that depend on the value alone.
pub trait CanonicalBytes: Sized {
    /// The encoding, in spec.
    spec fn spec_canonical_bytes(&self) -> Seq<u8>;

    /// The encoding.
    fn canonical_bytes(&self) -> (r: Vec<u8>)
        ensures
            r@ == self.spec_canonical_bytes(),
    ;
}

impl CanonicalBytes for usize {
    /// Eight bytes, little-endian, whatever the target's width.
    open spec fn spec_canonical_bytes(&self) -> Seq<u8> {
        spec_u64_to_le_bytes(*self as u64)
    }

    fn canonical_bytes(&self) -> (r: Vec<u8>) {
        u64_to_le_bytes(*self as u64)
    }
}

impl CanonicalBytes for bool {
    /// One byte: 1 for `true`, 0 for `false`.
    open spec fn spec_canonical_bytes(&self) -> Seq<u8> {
        seq![if *self { 1u8 } else { 0u8 }]
    }

    fn canonical_bytes(&self) -> (r: Vec<u8>) {
        if *self {
            vec![1u8]
        } else {
            vec![0u8]
        }
    }
}

/// A parent record's encoding: `[0]` for none, else `[1]` then the two
/// parents' bytes.
pub open spec fn parents_bytes(p: Option<ParentPair>) -> Seq<u8> {
    match p {
        None => seq![0u8],
        Some(pp) => seq![1u8] + pp.0@@ + pp.1@@,
    }
}

impl CanonicalBytes for Option<ParentPair> {
    open spec fn spec_canonical_bytes(&self) -> Seq<u8> {
        parents_bytes(*self)
    }

    fn canonical_bytes(&self) -> (r: Vec<u8>) {
        match self {
            None => vec![0u8],
            Some(pp) => {
                let mut v: Vec<u8> = Vec::new();
                v.push(1u8);
                push_bytes(&mut v, pp.0.as_bytes().as_slice());
                push_bytes(&mut v, pp.1.as_bytes().as_slice());
                proof {
                    assert(v@ =~= seq![1u8] + pp.0@@ + pp.1@@);
                }
                v
            },
        }
    }
}

// ---------------------------------------------------------------------------
// Signals
// ---------------------------------------------------------------------------

/// A projection context in spec: engine state, root, direction, boundary.
pub type SignalView = (EngineView, Distinction, Direction, Boundary);

/// The cone a context covers.
pub open spec fn ctx_cone(ctx: SignalView) -> Set<[u8; 16]> {
    cone_set(ctx.0, ctx.2, ctx.1, ctx.3)
}

/// A per-node computation over a projection cone. Implementations are
/// pure: the output is a function of the signal, the context's view and
/// the node ([`Signal::spec_compute`]), and the signal's canonical bytes
/// identify every field that affects it.
pub trait Signal: Sized {
    /// The per-node output.
    type Output: CanonicalBytes;

    /// The output for `node`, in spec.
    spec fn spec_compute(&self, ctx: SignalView, node: Distinction) -> Self::Output;

    /// Compute the signal for a node.
    fn compute(&self, ctx: &SignalContext, node: Distinction) -> (o: Self::Output)
        requires
            ctx.engine.wf(),
        ensures
            o == self.spec_compute(ctx@, node),
    ;

    /// The aggregate over a cone, in spec (`None` for a signal that does
    /// not aggregate).
    spec fn spec_aggregate(&self, ctx: SignalView, cone: Seq<Distinction>) -> Option<Self::Output>;

    /// Aggregate over the cone's members, given in ascending byte order.
    fn compute_aggregate(&self, ctx: &SignalContext, cone: Vec<Distinction>) -> (r: Option<Self::Output>)
        requires
            ctx.engine.wf(),
        ensures
            r == self.spec_aggregate(ctx@, cone@),
    ;

    /// The signal's canonical bytes, in spec.
    spec fn spec_signal_bytes(&self) -> Seq<u8>;

    /// Canonical bytes identifying this signal instance; they feed the
    /// projection identity and the wire header.
    fn canonical_bytes(&self) -> (r: &[u8])
        ensures
            r@ == self.spec_signal_bytes(),
    ;

    /// The output for a cone member from the hop count at which the
    /// traversal first reached it, for signals whose output is that count;
    /// `None` (the default) means "call `compute`".
    fn output_from_hops(&self, ctx: &SignalContext, node: Distinction, hops: usize) -> (r: Option<Self::Output>)
        requires
            ctx.engine.wf(),
            ctx_cone(ctx@).contains(node@),
            first_at(ctx@.0, ctx@.2, ctx@.1@, node@, hops as nat),
        ensures
            r matches Some(o) ==> o == self.spec_compute(ctx@, node),
        default_ensures
            r is None,
    {
        None
    }
}

/// A signal shipped with the substrate. Sealed: only [`Adjacency`],
/// [`Degree`] and [`HopDistance`] implement it.
pub trait CoreSignal: Signal + Sealed {
    /// The signal's precomputed type identity.
    spec fn spec_type_id() -> [u8; 16];

    /// The signal's precomputed type identity.
    fn core_type_id() -> (r: [u8; 16])
        ensures
            r == Self::spec_type_id(),
    ;
}

/// Signal: the canonical parent pair of a node.
#[derive(Clone, Copy, PartialEq, Eq, Debug, Default)]
pub struct Adjacency;

/// Signal: the degree of a node.
#[derive(Clone, Copy, PartialEq, Eq, Debug, Default)]
pub struct Degree;

/// Signal: the hop count from the root at which a node is first reached.
#[derive(Clone, Copy, PartialEq, Eq, Debug, Default)]
pub struct HopDistance;

impl Sealed for Adjacency {}

impl Sealed for Degree {}

impl Sealed for HopDistance {}

/// The parent record of `node` in a context's state (`None` when absent).
pub open spec fn adjacency_of(ctx: SignalView, node: Distinction) -> Option<ParentPair> {
    if ctx.0.contains_key(node@) {
        ctx.0[node@]
    } else {
        None
    }
}

/// The hop count at which `node` is first reached in the context's cone;
/// 0 outside the cone.
pub open spec fn hop_distance(ctx: SignalView, node: Distinction) -> usize {
    if ctx_cone(ctx).contains(node@) {
        choose|h: usize| first_at(ctx.0, ctx.2, ctx.1@, node@, h as nat)
    } else {
        0
    }
}

impl Signal for Adjacency {
    type Output = Option<ParentPair>;

    open spec fn spec_compute(&self, ctx: SignalView, node: Distinction) -> Option<ParentPair> {
        adjacency_of(ctx, node)
    }

    fn compute(&self, ctx: &SignalContext, node: Distinction) -> (o: Option<ParentPair>) {
        ctx.engine.parents_of(node)
    }

    open spec fn spec_aggregate(&self, ctx: SignalView, cone: Seq<Distinction>) -> Option<Option<ParentPair>> {
        None
    }

    fn compute_aggregate(&self, ctx: &SignalContext, cone: Vec<Distinction>) -> (r: Option<Option<ParentPair>>) {
        None
    }

    open spec fn spec_signal_bytes(&self) -> Seq<u8> {
        ADJACENCY_TAG@
    }

    fn canonical_bytes(&self) -> (r: &[u8]) {
        ADJACENCY_TAG.as_slice()
    }
}

impl Signal for Degree {
    type Output = usize;

    open spec fn spec_compute(&self, ctx: SignalView, node: Distinction) -> usize {
        spec_degree(ctx.0, node) as usize
    }

    fn compute(&self, ctx: &SignalContext, node: Distinction) -> (o: usize) {
        ctx.engine.degree(node)
    }

    open spec fn spec_aggregate(&self, ctx: SignalView, cone: Seq<Distinction>) -> Option<usize> {
        None
    }

    fn compute_aggregate(&self, ctx: &SignalContext, cone: Vec<Distinction>) -> (r: Option<usize>) {
        None
    }

    open spec fn spec_signal_bytes(&self) -> Seq<u8> {
        DEGREE_TAG@
    }

    fn canonical_bytes(&self) -> (r: &[u8]) {
        DEGREE_TAG.as_slice()
    }
}

impl Signal for HopDistance {
    type Output = usize;

    open spec fn spec_compute(&self, ctx: SignalView, node: Distinction) -> usize {
        hop_distance(ctx, node)
    }

    /// Runs the cone traversal and reads off the node's hop count.
    fn compute(&self, ctx: &SignalContext, node: Distinction) -> (o: usize) {
        let cone = traverse_cone(ctx.engine, ctx.root, ctx.direction, ctx.boundary);
        let mut i: usize = 0;
        while i < cone.len()
            invariant
                0 <= i <= cone@.len(),
                crate::cone::cone_members(ctx.engine@, ctx.direction, ctx.root, ctx.boundary, cone@),
                forall|j: int| 0 <= j < i ==> cone@[j].0@ != node@,
            decreases cone@.len() - i,
        {
            if cone[i].0.same_as(&node) {
                proof {
                    lemma_hop_distance(ctx@, node, cone@[i as int].1);
                }
                return cone[i].1;
            }
            i = i + 1;
        }
        proof {
            if ctx_cone(ctx@).contains(node@) {
                let j = choose|j: int| 0 <= j < cone@.len() && cone@[j].0@ == node@;
            }
        }
        0
    }

    open spec fn spec_aggregate(&self, ctx: SignalView, cone: Seq<Distinction>) -> Option<usize> {
        None
    }

    fn compute_aggregate(&self, ctx: &SignalContext, cone: Vec<Distinction>) -> (r: Option<usize>) {
        None
    }

    open spec fn spec_signal_bytes(&self) -> Seq<u8> {
        HOPDISTANCE_TAG@
    }

    fn canonical_bytes(&self) -> (r: &[u8]) {
        HOPDISTANCE_TAG.as_slice()
    }

    fn output_from_hops(&self, ctx: &SignalContext, node: Distinction, hops: usize) -> (r: Option<usize>)
        ensures
            r == Some(hops),
    {
        proof {
            lemma_hop_distance(ctx@, node, hops);
        }
        Some(hops)
    }
}

/// A hop count at which a cone member is first reached is its hop
/// distance.
pub proof fn lemma_hop_distance(ctx: SignalView, node: Distinction, h: usize)
    requires
        ctx_cone(ctx).contains(node@),
        first_at(ctx.0, ctx.2, ctx.1@, node@, h as nat),
    ensures
        hop_distance(ctx, node) == h,
{
    let c = choose|c: usize| first_at(ctx.0, ctx.2, ctx.1@, node@, c as nat);
    lemma_first_at_unique(ctx.0, ctx.2, ctx.1@, node@, c as nat, h as nat);
}

impl CoreSignal for Adjacency {
    open spec fn spec_type_id() -> [u8; 16] {
        ADJACENCY_TYPE_ID
    }

    fn core_type_id() -> (r: [u8; 16]) {
        ADJACENCY_TYPE_ID
    }
}

impl CoreSignal for Degree {
    open spec fn spec_type_id() -> [u8; 16] {
        DEGREE_TYPE_ID
    }

    fn core_type_id() -> (r: [u8; 16]) {
        DEGREE_TYPE_ID
    }
}

impl CoreSignal for HopDistance {
    open spec fn spec_type_id() -> [u8; 16] {
        HOPDISTANCE_TYPE_ID
    }

    fn core_type_id() -> (r: [u8; 16]) {
        HOPDISTANCE_TYPE_ID
    }
}

/// The precomputed 16-byte type identity of a core signal: the table
/// entry equal to `SHA-256` of its tag, truncated, with no hashing at run
/// time.
pub fn type_id_of<S: CoreSignal>() -> (r: [u8; 16])
    ensures
        r == S::spec_type_id(),
{
    S::core_type_id()
}

/// A signal's identity: `SHA-256` of its canonical bytes, truncated to 16
/// bytes.
pub open spec fn spec_signal_identity(bytes: Seq<u8>) -> [u8; 16] {
    arr16(sha256_digest(bytes))
}

/// Runtime signal identity: `SHA-256` of the signal's canonical bytes,
/// truncated to 16 bytes.
pub fn signal_identity<S: Signal>(signal: &S) -> (r: [u8; 16])
    ensures
        r == spec_signal_identity(signal.spec_signal_bytes()),
{
    broadcast use vstd::array::group_array_axioms;
    let digest = sha256(signal.canonical_bytes());
    let mut out = [0u8; 16];
    for i in 0..16
        invariant
            forall|j: int| 0 <= j < i ==> out[j] == digest[j],
    {
        out[i] = digest[i];
    }
    proof {
        lemma_arr16(digest@);
        assert(out@ =~= arr16(sha256_digest(signal.spec_signal_bytes()))@);
        assert(out =~= arr16(sha256_digest(signal.spec_signal_bytes())));
    }
    out
}

/// Context passed to every [`Signal::compute`] call.
#[non_exhaustive]
pub struct SignalContext<'e> {
    /// Read-only engine borrow.
    pub engine: &'e DistinctionEngine,
    /// Projection root.
    pub root: Distinction,
    /// Traversal direction.
    pub direction: Direction,
    /// Traversal boundary.
    pub boundary: Boundary,
}

impl<'e> View for SignalContext<'e> {
    type V = SignalView;

    open spec fn view(&self) -> SignalView {
        (self.engine@, self.root, self.direction, self.boundary)
    }
}

/// Traversal boundary: how far from the root the projection reaches.
#[derive(Clone, Copy, PartialEq, Eq, Structural, Debug)]
#[non_exhaustive]
pub enum Boundary {
    /// Up to N hops from the root; `Hops(0)` is the root alone.
    Hops(usize),
    /// Until the frontier saturates (no new neighbours).
    Saturated,
}

/// Traversal direction relative to the root.
#[derive(Clone, Copy, PartialEq, Eq, Structural, Debug)]
#[non_exhaustive]
pub enum Direction {
    /// Walk parent edges (ancestors).
    Upstream,
    /// Walk child edges (descendants).
    Downstream,
    /// Walk both.
    Undirected,
}

// ---------------------------------------------------------------------------
// Identity, spec and output
// ---------------------------------------------------------------------------

/// Content-addressed 32-byte identity of a projection spec.
#[derive(Clone, Copy, PartialEq, Eq, PartialOrd, Ord, Hash, Debug)]
pub struct ProjectionId(pub(crate) [u8; 32]);

impl View for ProjectionId {
    type V = [u8; 32];

    closed spec fn view(&self) -> [u8; 32] {
        self.0
    }
}

impl ProjectionId {
    /// Borrow the underlying 32 bytes.
    pub fn as_bytes(&self) -> (r: &[u8; 32])
        ensures
            *r == self@,
    {
        &self.0
    }

    /// The `Debug` rendering: `ProjectionId(<64 lowercase hex digits>)`.
    pub fn to_debug_string(&self) -> (s: String)
        ensures
            s@ == "ProjectionId("@ + hex_chars(self@@) + ")"@,
    {
        let mut s = String::from_str("ProjectionId(");
        push_hex(&mut s, self.0.as_slice());
        s.append(")");
        s
    }
}

/// The identity of a projection: root, boundary, direction, signal.
#[derive(Clone)]
#[non_exhaustive]
pub struct ProjectionSpec<S: Signal> {
    /// The root distinction anchoring the projection.
    pub root: Distinction,
    /// Traversal boundary.
    pub boundary: Boundary,
    /// Traversal direction.
    pub direction: Direction,
    /// Signal instance driving per-node computation.
    pub signal: S,
}

/// `s`'s keys ascend strictly by bytes.
pub open spec fn keys_ascending<O>(s: Seq<(Distinction, O)>) -> bool {
    forall|i: int, j: int| 0 <= i < j < s.len() ==> bytes_lt(#[trigger] s[i].0@@, #[trigger] s[j].0@@)
}

/// The materialized entries of a projection, ascending by the bytes of
/// their distinction.
#[non_exhaustive]
pub struct ProjectionOutput<S: Signal> {
    pub(crate) inner: Vec<(Distinction, S::Output)>,
}

impl<S: Signal> View for ProjectionOutput<S> {
    type V = Seq<(Distinction, S::Output)>;

    closed spec fn view(&self) -> Seq<(Distinction, S::Output)> {
        self.inner@
    }
}

impl<S: Signal> ProjectionOutput<S> {
    #[verifier::type_invariant]
    spec fn ascending(self) -> bool {
        keys_ascending(self.inner@)
    }

    /// Number of entries.
    pub fn len(&self) -> (n: usize)
        ensures
            n == self@.len(),
    {
        self.inner.len()
    }

    /// True if there are no entries.
    pub fn is_empty(&self) -> (b: bool)
        ensures
            b == (self@.len() == 0),
    {
        self.inner.len() == 0
    }

    /// The entries, ascending by the bytes of their distinction.
    pub fn iter(&self) -> (r: &[(Distinction, S::Output)])
        ensures
            r@ == self@,
            keys_ascending(r@),
    {
        proof {
            use_type_invariant(self);
        }
        self.inner.as_slice()
    }

    /// True iff `d` has an entry (binary search).
    pub fn contains(&self, d: &Distinction) -> (b: bool)
        ensures
            b == exists|i: int| 0 <= i < self@.len() && self@[i].0 == *d,
    {
        proof {
            use_type_invariant(self);
        }
        let s = &self.inner;
        let mut lo: usize = 0;
        let mut hi: usize = s.len();
        while lo < hi
            invariant
                keys_ascending(s@),
                0 <= lo <= hi <= s@.len(),
                forall|i: int| 0 <= i < lo ==> bytes_lt(#[trigger] s@[i].0@@, d@@),
                forall|i: int| hi <= i < s@.len() ==> !bytes_lt(#[trigger] s@[i].0@@, d@@),
            decreases hi - lo,
        {
            let mid = lo + (hi - lo) / 2;
            if crate::distinction::bytes_less(s[mid].0.as_bytes(), d.as_bytes()) {
                proof {
                    assert forall|i: int| 0 <= i < mid + 1 implies bytes_lt(#[trigger] s@[i].0@@, d@@) by {
                        if i < mid {
                            lemma_bytes_lt_trans(s@[i].0@@, s@[mid as int].0@@, d@@);
                        }
                    }
                }
                lo = mid + 1;
            } else {
                proof {
                    assert forall|i: int| mid <= i < s@.len() implies !bytes_lt(#[trigger] s@[i].0@@, d@@) by {
                        if i > mid && bytes_lt(s@[i].0@@, d@@) {
                            lemma_bytes_lt_trans(s@[mid as int].0@@, s@[i].0@@, d@@);
                        }
                    }
                }
                hi = mid;
            }
        }
        let found = lo < s.len() && s[lo].0.same_as(d);
        proof {
            if found {
                assert(self@[lo as int].0 == *d);
            } else {
                if exists|i: int| 0 <= i < s@.len() && s@[i].0 == *d {
                    let i = choose|i: int| 0 <= i < s@.len() && s@[i].0 == *d;
                    if i < lo {
                        lemma_bytes_lt_asym(d@@, d@@);
                    } else if i > lo {
                        lemma_bytes_lt_trans(s@[lo as int].0@@, s@[i].0@@, d@@);
                        assert(d@@.take(0) =~= s@[lo as int].0@@.take(0));
                        assert(s@[lo as int].0@@ != d@@) by {
                            if s@[lo as int].0@@ == d@@ {
                                assert(s@[lo as int].0@ =~= d@);
                            }
                        }
                        lemma_bytes_lt_total(d@@, s@[lo as int].0@@, 0);
                        lemma_bytes_lt_asym(s@[lo as int].0@@, s@[i].0@@);
                    }
                }
            }
        }
        found
    }
}

/// `s` lists the set `keys` strictly ascending by bytes.
pub open spec fn lists_ascending(s: Seq<Distinction>, keys: Set<[u8; 16]>) -> bool {
    &&& forall|i: int, j: int| 0 <= i < j < s.len() ==> bytes_lt(#[trigger] s[i]@@, #[trigger] s[j]@@)
    &&& forall|i: int| #![trigger s[i]] 0 <= i < s.len() ==> keys.contains(s[i]@)
    &&& forall|k: [u8; 16]| #[trigger] keys.contains(k) ==> exists|i: int| 0 <= i < s.len() && s[i]@ == k
}

/// The members of a context's cone in ascending byte order.
pub open spec fn cone_keys(ctx: SignalView) -> Seq<Distinction> {
    choose|s: Seq<Distinction>| lists_ascending(s, ctx_cone(ctx))
}

/// The entries a projection holds: each cone member, ascending by bytes,
/// with the signal's output for it.
pub open spec fn projection_entries<S: Signal>(ctx: SignalView, signal: S) -> Seq<(Distinction, S::Output)> {
    cone_keys(ctx).map_values(|d: Distinction| (d, signal.spec_compute(ctx, d)))
}

/// A set has one ascending listing.
pub proof fn lemma_ascending_unique(s1: Seq<Distinction>, s2: Seq<Distinction>, keys: Set<[u8; 16]>)
    requires
        lists_ascending(s1, keys),
        lists_ascending(s2, keys),
    ensures
        s1 == s2,
    decreases s1.len(),
{
    if s1.len() == 0 {
        if s2.len() > 0 {
            assert(keys.contains(s2[0]@));
        }
        assert(s1 =~= s2);
    } else {
        assert(keys.contains(s1[0]@));
        let j = choose|j: int| 0 <= j < s2.len() && s2[j]@ == s1[0]@;
        assert(keys.contains(s2[0]@));
        let i = choose|i: int| 0 <= i < s1.len() && s1[i]@ == s2[0]@;
        if i > 0 && j > 0 {
            assert(bytes_lt(s1[0]@@, s1[i]@@));
            assert(bytes_lt(s2[0]@@, s2[j]@@));
            lemma_bytes_lt_asym(s1[0]@@, s2[0]@@);
        }
        assert(s1[0] == s2[0]);
        let k2 = keys.remove(s1[0]@);
        let t1 = s1.drop_first();
        let t2 = s2.drop_first();
        assert forall|a: int| #![trigger t1[a]] 0 <= a < t1.len() implies k2.contains(t1[a]@) by {
            assert(t1[a] == s1[a + 1]);
            assert(bytes_lt(s1[0]@@, s1[a + 1]@@));
            lemma_bytes_lt_asym(s1[0]@@, s1[a + 1]@@);
        }
        assert forall|a: int| #![trigger t2[a]] 0 <= a < t2.len() implies k2.contains(t2[a]@) by {
            assert(t2[a] == s2[a + 1]);
            assert(bytes_lt(s2[0]@@, s2[a + 1]@@));
            lemma_bytes_lt_asym(s2[0]@@, s2[a + 1]@@);
        }
        assert forall|k: [u8; 16]| #[trigger] k2.contains(k) implies exists|a: int| 0 <= a < t1.len() && t1[a]@ == k by {
            let a = choose|a: int| 0 <= a < s1.len() && s1[a]@ == k;
            assert(a != 0);
            assert(t1[a - 1] == s1[a]);
        }
        assert forall|k: [u8; 16]| #[trigger] k2.contains(k) implies exists|a: int| 0 <= a < t2.len() && t2[a]@ == k by {
            let a = choose|a: int| 0 <= a < s2.len() && s2[a]@ == k;
            assert(a != 0);
            assert(t2[a - 1] == s2[a]);
        }
        assert forall|a: int, b: int| 0 <= a < b < t1.len() implies bytes_lt(#[trigger] t1[a]@@, #[trigger] t1[b]@@) by {
            assert(t1[a] == s1[a + 1] && t1[b] == s1[b + 1]);
        }
        assert forall|a: int, b: int| 0 <= a < b < t2.len() implies bytes_lt(#[trigger] t2[a]@@, #[trigger] t2[b]@@) by {
            assert(t2[a] == s2[a + 1] && t2[b] == s2[b + 1]);
        }
        lemma_ascending_unique(t1, t2, k2);
        assert(s1 =~= seq![s1[0]] + t1);
        assert(s2 =~= seq![s2[0]] + t2);
    }
}

// ---------------------------------------------------------------------------
// The read-only engine surface
// ---------------------------------------------------------------------------

/// The read-only surface a projection reads through. Sealed: only
/// [`DistinctionEngine`] implements it, and it lists no mutating method.
pub trait ReadOnlyEngine: Sealed {
    /// The parentage state read, in spec.
    spec fn ro_view(&self) -> EngineView;

    /// The engine's well-formedness, in spec.
    spec fn ro_wf(&self) -> bool;

    /// First primordial.
    fn d0(&self) -> (d: Distinction)
        requires
            self.ro_wf(),
        ensures
            d == spec_d0(),
    ;

    /// Second primordial.
    fn d1(&self) -> (d: Distinction)
        requires
            self.ro_wf(),
        ensures
            d == spec_d1(),
    ;

    /// Total distinction count (including primordials).
    fn distinction_count(&self) -> (n: usize)
        requires
            self.ro_wf(),
        ensures
            n == self.ro_view().dom().len(),
    ;

    /// Relationship count, `2 * distinction_count() - 3`.
    fn relationship_count(&self) -> (n: usize)
        requires
            self.ro_wf(),
            2 * self.ro_view().dom().len() <= usize::MAX + 3,
        ensures
            n == 2 * self.ro_view().dom().len() - 3,
    ;

    /// Canonical `(min, max)` parent pair of a non-primordial.
    fn parents_of(&self, d: Distinction) -> (r: Option<ParentPair>)
        requires
            self.ro_wf(),
        ensures
            r == (if self.ro_view().contains_key(d@) {
                self.ro_view()[d@]
            } else {
                None
            }),
    ;

    /// Degree of a distinction.
    fn degree(&self, d: Distinction) -> (n: usize)
        requires
            self.ro_wf(),
        ensures
            n == spec_degree(self.ro_view(), d),
    ;

    /// Membership check.
    fn has(&self, d: Distinction) -> (b: bool)
        requires
            self.ro_wf(),
        ensures
            b == self.ro_view().contains_key(d@),
    ;

    /// Every registered distinction, each once, in unspecified order.
    fn snapshot_distinctions(&self) -> (r: Vec<Distinction>)
        requires
            self.ro_wf(),
        ensures
            r@.len() == self.ro_view().dom().len(),
            forall|i: int| #![trigger r@[i]] 0 <= i < r@.len() ==> self.ro_view().contains_key(r@[i]@),
            forall|k: [u8; 16]| #[trigger] self.ro_view().contains_key(k) ==> exists|i: int|
                0 <= i < r@.len() && r@[i]@ == k,
    ;

    /// Every parent-child relationship, one entry per non-primordial.
    fn snapshot_parentage(&self) -> (r: Vec<(Distinction, ParentPair)>)
        requires
            self.ro_wf(),
        ensures
            is_parentage_of(self.ro_view(), r@),
    ;

    /// Verify the structural law `r = 2d - 3`.
    fn check_structural_invariant(&self) -> (r: Result<(), InvariantError>)
        requires
            self.ro_wf(),
        ensures
            r is Ok,
    ;
}

impl Sealed for DistinctionEngine {}

impl ReadOnlyEngine for DistinctionEngine {
    open spec fn ro_view(&self) -> EngineView {
        self@
    }

    open spec fn ro_wf(&self) -> bool {
        self.wf()
    }

    fn d0(&self) -> (d: Distinction) {
        DistinctionEngine::d0(self)
    }

    fn d1(&self) -> (d: Distinction) {
        DistinctionEngine::d1(self)
    }

    fn distinction_count(&self) -> (n: usize) {
        DistinctionEngine::distinction_count(self)
    }

    fn relationship_count(&self) -> (n: usize) {
        DistinctionEngine::relationship_count(self)
    }

    fn parents_of(&self, d: Distinction) -> (r: Option<ParentPair>) {
        DistinctionEngine::parents_of(self, d)
    }

    fn degree(&self, d: Distinction) -> (n: usize) {
        DistinctionEngine::degree(self, d)
    }

    fn has(&self, d: Distinction) -> (b: bool) {
        DistinctionEngine::has(self, d)
    }

    fn snapshot_distinctions(&self) -> (r: Vec<Distinction>) {
        DistinctionEngine::snapshot_distinctions(self)
    }

    fn snapshot_parentage(&self) -> (r: Vec<(Distinction, ParentPair)>) {
        DistinctionEngine::snapshot_parentage(self)
    }

    fn check_structural_invariant(&self) -> (r: Result<(), InvariantError>) {
        DistinctionEngine::check_structural_invariant(self)
    }
}

// ---------------------------------------------------------------------------
// Projection
// ---------------------------------------------------------------------------

/// A materialized read of the graph, bound to its engine by borrow.
#[non_exhaustive]
pub struct Projection<'e, S: Signal> {
    pub(crate) engine: &'e DistinctionEngine,
    pub(crate) spec: ProjectionSpec<S>,
    pub(crate) output: ProjectionOutput<S>,
}

impl<'e, S: Signal> Projection<'e, S> {
    /// The context the projection was materialized in.
    pub closed spec fn ctx(&self) -> SignalView {
        (self.engine@, self.spec.root, self.spec.direction, self.spec.boundary)
    }

    /// The projection's signal.
    pub closed spec fn signal(&self) -> S {
        self.spec.signal
    }

    /// The projection's entries.
    pub closed spec fn entries(&self) -> Seq<(Distinction, S::Output)> {
        self.output@
    }

    #[verifier::type_invariant]
    spec fn materialized(self) -> bool {
        &&& self.engine.wf()
        &&& lists_ascending(cone_keys(self.ctx()), ctx_cone(self.ctx()))
        &&& self.output@ == projection_entries(self.ctx(), self.spec.signal)
    }

    /// Borrow the per-node outputs.
    pub fn output(&self) -> (r: &ProjectionOutput<S>)
        ensures
            r@ == self.entries(),
    {
        &self.output
    }

    /// Borrow the spec this projection was materialized against.
    pub fn spec(&self) -> (r: &ProjectionSpec<S>)
        ensures
            r.root == self.ctx().1,
            r.direction == self.ctx().2,
            r.boundary == self.ctx().3,
            r.signal == self.signal(),
    {
        &self.spec
    }

    /// True iff `d` is in the cone.
    pub fn contains(&self, d: &Distinction) -> (b: bool)
        ensures
            b == ctx_cone(self.ctx()).contains(d@),
    {
        proof {
            use_type_invariant(self);
            lemma_projection_keys(self.ctx(), self.spec.signal);
        }
        let b = self.output.contains(d);
        proof {
            let keys = cone_keys(self.ctx());
            if ctx_cone(self.ctx()).contains(d@) {
                let i = choose|i: int| 0 <= i < keys.len() && keys[i]@ == d@;
                assert(self.output@[i].0 == *d);
            }
        }
        b
    }

    /// The signal's aggregate over the cone (`None` for a signal that does
    /// not aggregate).
    pub fn aggregate(&self) -> (r: Option<S::Output>)
        ensures
            r == self.signal().spec_aggregate(self.ctx(), cone_keys(self.ctx())),
    {
        proof {
            use_type_invariant(self);
        }
        let ctx = SignalContext {
            engine: self.engine,
            root: self.spec.root,
            direction: self.spec.direction,
            boundary: self.spec.boundary,
        };
        let entries = self.output.iter();
        let mut cone: Vec<Distinction> = Vec::new();
        let mut i: usize = 0;
        while i < entries.len()
            invariant
                0 <= i <= entries@.len(),
                cone@.len() == i,
                forall|j: int| 0 <= j < i ==> cone@[j] == entries@[j].0,
            decreases entries@.len() - i,
        {
            cone.push(entries[i].0);
            i = i + 1;
        }
        proof {
            assert(cone@ =~= cone_keys(self.ctx()));
        }
        self.spec.signal.compute_aggregate(&ctx, cone)
    }
}

/// The entries of a projection pair each listed cone member with its
/// output.
pub proof fn lemma_projection_keys<S: Signal>(ctx: SignalView, signal: S)
    ensures
        projection_entries(ctx, signal).len() == cone_keys(ctx).len(),
        forall|i: int| #![trigger projection_entries(ctx, signal)[i]] 0 <= i < cone_keys(ctx).len()
            ==> projection_entries(ctx, signal)[i] == (cone_keys(ctx)[i], signal.spec_compute(ctx, cone_keys(ctx)[i])),
{
}

// ---------------------------------------------------------------------------
// Builder
// ---------------------------------------------------------------------------

/// Typestate marker: the builder needs `direction()` next.
pub struct NeedsDirection;

/// Typestate marker: the builder needs `boundary()` next.
pub struct NeedsBoundary;

/// Typestate marker: the builder needs `signal()` next.
pub struct NeedsSignal;

/// Fluent projection builder; the typestate orders direction, boundary
/// and signal.
pub struct ProjectionBuilder<'e, State> {
    pub(crate) engine: &'e DistinctionEngine,
    pub(crate) root: Distinction,
    pub(crate) direction: Option<Direction>,
    pub(crate) boundary: Option<Boundary>,
    pub(crate) _state: PhantomData<State>,
}

impl<'e, State> ProjectionBuilder<'e, State> {
    /// The engine state read.
    pub closed spec fn engine_view(&self) -> EngineView {
        self.engine@
    }

    /// Whether the engine read is well formed.
    pub closed spec fn engine_wf(&self) -> bool {
        self.engine.wf()
    }

    /// The root.
    pub closed spec fn spec_root(&self) -> Distinction {
        self.root
    }

    /// The direction chosen so far.
    pub closed spec fn spec_direction(&self) -> Option<Direction> {
        self.direction
    }

    /// The boundary chosen so far.
    pub closed spec fn spec_boundary(&self) -> Option<Boundary> {
        self.boundary
    }
}

/// Fully specified builder: only this state can `materialize()`.
pub struct ReadyBuilder<'e, S: Signal> {
    pub(crate) engine: &'e DistinctionEngine,
    pub(crate) root: Distinction,
    pub(crate) direction: Direction,
    pub(crate) boundary: Boundary,
    pub(crate) signal: S,
}

impl<'e, S: Signal> ReadyBuilder<'e, S> {
    /// The context the projection will be materialized in.
    pub closed spec fn ctx(&self) -> SignalView {
        (self.engine@, self.root, self.direction, self.boundary)
    }

    /// The signal.
    pub closed spec fn spec_signal(&self) -> S {
        self.signal
    }

    /// Whether the engine read is well formed.
    pub closed spec fn engine_wf(&self) -> bool {
        self.engine.wf()
    }
}

impl<'e> ProjectionBuilder<'e, NeedsDirection> {
    /// Set the traversal direction.
    pub fn direction(self, direction: Direction) -> (r: ProjectionBuilder<'e, NeedsBoundary>)
        ensures
            r.engine_view() == self.engine_view(),
            r.engine_wf() == self.engine_wf(),
            r.spec_root() == self.spec_root(),
            r.spec_direction() == Some(direction),
            r.spec_boundary() == None::<Boundary>,
    {
        ProjectionBuilder {
            engine: self.engine,
            root: self.root,
            direction: Some(direction),
            boundary: None,
            _state: PhantomData,
        }
    }
}

impl<'e> ProjectionBuilder<'e, NeedsBoundary> {
    /// Set the traversal boundary.
    pub fn boundary(self, boundary: Boundary) -> (r: ProjectionBuilder<'e, NeedsSignal>)
        ensures
            r.engine_view() == self.engine_view(),
            r.engine_wf() == self.engine_wf(),
            r.spec_root() == self.spec_root(),
            r.spec_direction() == self.spec_direction(),
            r.spec_boundary() == Some(boundary),
    {
        ProjectionBuilder {
            engine: self.engine,
            root: self.root,
            direction: self.direction,
            boundary: Some(boundary),
            _state: PhantomData,
        }
    }

    /// `boundary(Boundary::Hops(n))`.
    pub fn hops(self, n: usize) -> (r: ProjectionBuilder<'e, NeedsSignal>)
        ensures
            r.engine_view() == self.engine_view(),
            r.engine_wf() == self.engine_wf(),
            r.spec_root() == self.spec_root(),
            r.spec_direction() == self.spec_direction(),
            r.spec_boundary() == Some(Boundary::Hops(n)),
    {
        self.boundary(Boundary::Hops(n))
    }

    /// `boundary(Boundary::Saturated)`.
    pub fn saturated(self) -> (r: ProjectionBuilder<'e, NeedsSignal>)
        ensures
            r.engine_view() == self.engine_view(),
            r.engine_wf() == self.engine_wf(),
            r.spec_root() == self.spec_root(),
            r.spec_direction() == self.spec_direction(),
            r.spec_boundary() == Some(Boundary::Saturated),
    {
        self.boundary(Boundary::Saturated)
    }
}

impl<'e> ProjectionBuilder<'e, NeedsSignal> {
    /// Pass the signal by value.
    pub fn signal<S: Signal>(self, signal: S) -> (r: ReadyBuilder<'e, S>)
        requires
            self.spec_direction() is Some,
            self.spec_boundary() is Some,
        ensures
            r.ctx() == (self.engine_view(), self.spec_root(), self.spec_direction().unwrap(), self.spec_boundary().unwrap()),
            r.engine_wf() == self.engine_wf(),
            r.spec_signal() == signal,
    {
        ReadyBuilder {
            engine: self.engine,
            root: self.root,
            direction: self.direction.unwrap(),
            boundary: self.boundary.unwrap(),
            signal,
        }
    }
}

impl<'e, S: Signal> ReadyBuilder<'e, S> {
    /// Run the single breadth-first traversal of the cone and compute each
    /// member's output: from the hop count where the signal takes it
    /// (`HopDistance`), otherwise by `compute`.
    pub fn materialize(self) -> (p: Projection<'e, S>)
        requires
            self.engine_wf(),
        ensures
            p.ctx() == self.ctx(),
            p.signal() == self.spec_signal(),
            p.entries() == projection_entries(self.ctx(), self.spec_signal()),
    {
        let ctx = SignalContext {
            engine: self.engine,
            root: self.root,
            direction: self.direction,
            boundary: self.boundary,
        };
        let visit = traverse_cone(self.engine, self.root, self.direction, self.boundary);
        let cone = crate::cone::sort_cone(
            &visit,
            Ghost(self.engine@),
            Ghost(self.direction),
            Ghost(self.root),
            Ghost(self.boundary),
        );
        let ghost keys = cone@.map_values(|e: (Distinction, usize)| e.0);
        let mut inner: Vec<(Distinction, S::Output)> = Vec::new();
        let mut i: usize = 0;
        while i < cone.len()
            invariant
                self.engine.wf(),
                ctx.engine == self.engine,
                ctx@ == self.ctx(),
                crate::cone::cone_listing(self.engine@, self.direction, self.root, self.boundary, cone@),
                0 <= i <= cone@.len(),
                inner@.len() == i,
                forall|j: int| #![trigger inner@[j]] 0 <= j < i ==> inner@[j] == (cone@[j].0, self.signal.spec_compute(
                    ctx@,
                    cone@[j].0,
                )),
            decreases cone@.len() - i,
        {
            let (d, h) = cone[i];
            let o = match self.signal.output_from_hops(&ctx, d, h) {
                Some(o) => o,
                None => self.signal.compute(&ctx, d),
            };
            inner.push((d, o));
            i = i + 1;
        }
        proof {
            let ck = ctx_cone(ctx@);
            assert(lists_ascending(keys, ck)) by {
                assert forall|k: [u8; 16]| #[trigger] ck.contains(k) implies exists|a: int| 0 <= a < keys.len() && keys[a]@ == k by {
                    let a = choose|a: int| 0 <= a < cone@.len() && cone@[a].0@ == k;
                    assert(keys[a] == cone@[a].0);
                }
            }
            lemma_ascending_unique(keys, cone_keys(ctx@), ck);
            assert(inner@ =~= projection_entries(ctx@, self.signal));
        }
        let output = ProjectionOutput { inner };
        Projection {
            engine: self.engine,
            spec: ProjectionSpec {
                root: self.root,
                boundary: self.boundary,
                direction: self.direction,
                signal: self.signal,
            },
            output,
        }
    }
}

impl DistinctionEngine {
    /// Start a projection anchored at `root`.
    pub fn project(&self, root: Distinction) -> (b: ProjectionBuilder<'_, NeedsDirection>)
        ensures
            b.engine_view() == self@,
            b.engine_wf() == self.wf(),
            b.spec_root() == root,
            b.spec_direction() == None::<Direction>,
            b.spec_boundary() == None::<Boundary>,
    {
        ProjectionBuilder { engine: self, root, direction: None, boundary: None, _state: PhantomData }
    }

    /// Start a projection anchored at `root` through a shared handle: the
    /// builder borrows the engine behind the `Arc` for as long as it lives.
    pub fn project_arc<'a>(self: &'a Arc<Self>, root: Distinction) -> (b: ProjectionBuilder<'a, NeedsDirection>)
        ensures
            b.engine_view() == (**self)@,
            b.engine_wf() == (**self).wf(),
            b.spec_root() == root,
            b.spec_direction() == None::<Direction>,
            b.spec_boundary() == None::<Boundary>,
    {
        let engine: &'a DistinctionEngine = &**self;
        ProjectionBuilder { engine, root, direction: None, boundary: None, _state: PhantomData }
    }
}

// ---------------------------------------------------------------------------
// Errors
// ---------------------------------------------------------------------------

/// Reasons [`DistinctionEngine::restore_projection`] can reject.
#[derive(Debug, Clone, PartialEq, Eq)]
#[non_exhaustive]
pub enum RestoreError {
    /// Bytes malformed: magic, version, length or a tag.
    Malformed {
        /// Byte offset where the malformation was detected.
        offset: usize,
        /// Static reason string.
        reason: &'static str,
    },
    /// The root is not registered in this engine, or this engine
    /// re-materializes different bytes.
    ForeignEngine,
    /// The signal passed does not match the signal identity in the bytes.
    SignalMismatch {
        /// Identity of the signal passed.
        expected: [u8; 16],
        /// Identity read from the wire header.
        actual: [u8; 16],
    },
    /// A wire integer exceeds `usize::MAX` on this target.
    IntegerOverflow {
        /// The wire field that overflowed.
        field: &'static str,
        /// The raw value read.
        value: u64,
    },
}

/// The display message of a restore error.
pub open spec fn restore_message(e: RestoreError) -> Seq<char> {
    match e {
        RestoreError::Malformed { offset, reason } => "wire bytes malformed at offset "@ + decimal_chars(offset as nat)
            + ": "@ + reason@,
        RestoreError::ForeignEngine => "distinction bytes not registered in restore engine (foreign entry)"@,
        RestoreError::SignalMismatch { expected, actual } => "signal type mismatch: expected "@ + byte_list_chars(
            expected@,
        ) + ", got "@ + byte_list_chars(actual@),
        RestoreError::IntegerOverflow { field, value } => "wire "@ + field@ + " value "@ + decimal_chars(value as nat)
            + " exceeds usize::MAX on this target"@,
    }
}

impl RestoreError {
    /// The display message.
    pub fn to_display_string(&self) -> (s: String)
        ensures
            s@ == restore_message(*self),
    {
        match self {
            RestoreError::Malformed { offset, reason } => {
                let mut s = String::from_str("wire bytes malformed at offset ");
                push_decimal(&mut s, *offset as u64);
                s.append(": ");
                s.append(reason);
                s
            },
            RestoreError::ForeignEngine => String::from_str(
                "distinction bytes not registered in restore engine (foreign entry)",
            ),
            RestoreError::SignalMismatch { expected, actual } => {
                let mut s = String::from_str("signal type mismatch: expected ");
                push_byte_list(&mut s, expected.as_slice());
                s.append(", got ");
                push_byte_list(&mut s, actual.as_slice());
                s
            },
            RestoreError::IntegerOverflow { field, value } => {
                let mut s = String::from_str("wire ");
                s.append(field);
                s.append(" value ");
                push_decimal(&mut s, *value);
                s.append(" exceeds usize::MAX on this target");
                s
            },
        }
    }
}

impl From<VerifyError> for RestoreError {
    fn from(err: VerifyError) -> (r: Self) {
        match err {
            VerifyError::ForeignBytes => RestoreError::ForeignEngine,
        }
    }
}

impl vstd::std_specs::convert::FromSpecImpl<VerifyError> for RestoreError {
    open spec fn obeys_from_spec() -> bool {
        true
    }

    open spec fn from_spec(err: VerifyError) -> RestoreError {
        match err {
            VerifyError::ForeignBytes => RestoreError::ForeignEngine,
        }
    }
}

/// Reasons [`Projection::try_canonical_bytes`] can reject.
#[derive(Debug, Clone, PartialEq, Eq)]
#[non_exhaustive]
pub enum SerializeError {
    /// A node's output encodes in more than `u32::MAX` bytes, which the
    /// wire's 32-bit length field cannot carry.
    EntryTooLarge {
        /// The distinction whose entry overflowed.
        distinction: Distinction,
        /// The oversized output length.
        output_len: usize,
    },
}

/// The display message of a serialization error.
pub open spec fn serialize_message(e: SerializeError) -> Seq<char> {
    match e {
        SerializeError::EntryTooLarge { distinction, output_len } => "entry for distinction "@ + debug_chars(
            distinction,
        ) + " exceeds u32::MAX bytes: "@ + decimal_chars(output_len as nat),
    }
}

impl SerializeError {
    /// The display message.
    pub fn to_display_string(&self) -> (s: String)
        ensures
            s@ == serialize_message(*self),
    {
        match self {
            SerializeError::EntryTooLarge { distinction, output_len } => {
                let mut s = String::from_str("entry for distinction ");
                let d = distinction.to_debug_string();
                s.append(d.as_str());
                s.append(" exceeds u32::MAX bytes: ");
                push_decimal(&mut s, *output_len as u64);
                s
            },
        }
    }
}

// ---------------------------------------------------------------------------
// Wire format
// ---------------------------------------------------------------------------

/// Wire magic, `KPRJ`.
pub const WIRE_MAGIC: [u8; 4] = [75, 80, 82, 74];

/// Wire format version.
pub const WIRE_VERSION: u8 = 2;

/// Length of the fixed wire header.
pub const WIRE_HEADER_LEN: usize = 55;

/// Domain separator of the projection identity, `koru:projection_id:v1`.
pub const PROJECTION_ID_DOMAIN: [u8; 21] = [
    107, 111, 114, 117, 58, 112, 114, 111, 106, 101, 99, 116, 105, 111, 110, 95, 105, 100, 58, 118, 49,
];

/// Wire tag of a boundary.
pub open spec fn boundary_tag(b: Boundary) -> u8 {
    match b {
        Boundary::Hops(_) => 0,
        Boundary::Saturated => 1,
    }
}

/// Wire payload of a boundary: the hop count, 0 when saturated.
pub open spec fn boundary_payload(b: Boundary) -> u64 {
    match b {
        Boundary::Hops(n) => n as u64,
        Boundary::Saturated => 0,
    }
}

/// Wire tag of a direction.
pub open spec fn direction_tag(d: Direction) -> u8 {
    match d {
        Direction::Upstream => 0,
        Direction::Downstream => 1,
        Direction::Undirected => 2,
    }
}

fn boundary_to_wire(b: Boundary) -> (r: (u8, u64))
    ensures
        r == (boundary_tag(b), boundary_payload(b)),
{
    match b {
        Boundary::Hops(n) => (0u8, n as u64),
        Boundary::Saturated => (1u8, 0u64),
    }
}

fn direction_to_tag(d: Direction) -> (r: u8)
    ensures
        r == direction_tag(d),
{
    match d {
        Direction::Upstream => 0u8,
        Direction::Downstream => 1u8,
        Direction::Undirected => 2u8,
    }
}

/// The 55-byte wire header: magic, version, root, boundary tag and
/// payload, direction tag, signal identity, entry count.
pub open spec fn wire_header(ctx: SignalView, sig_id: [u8; 16], count: nat) -> Seq<u8> {
    WIRE_MAGIC@ + seq![WIRE_VERSION] + ctx.1@@ + seq![boundary_tag(ctx.3)] + spec_u64_to_le_bytes(
        boundary_payload(ctx.3),
    ) + seq![direction_tag(ctx.2)] + sig_id@ + spec_u64_to_le_bytes(count as u64)
}

/// An entry's output fits the wire's 32-bit length field.
pub open spec fn entry_fits<O: CanonicalBytes>(e: (Distinction, O)) -> bool {
    e.1.spec_canonical_bytes().len() <= u32::MAX
}

/// Every entry fits.
pub open spec fn all_fit<O: CanonicalBytes>(es: Seq<(Distinction, O)>) -> bool {
    forall|i: int| 0 <= i < es.len() ==> #[trigger] entry_fits(es[i])
}

/// An entry on the wire: distinction bytes, output length (u32 LE),
/// output bytes.
pub open spec fn entry_wire<O: CanonicalBytes>(e: (Distinction, O)) -> Seq<u8> {
    e.0@@ + spec_u32_to_le_bytes(e.1.spec_canonical_bytes().len() as u32) + e.1.spec_canonical_bytes()
}

/// The entries on the wire, in order.
pub open spec fn entries_wire<O: CanonicalBytes>(es: Seq<(Distinction, O)>) -> Seq<u8>
    decreases es.len(),
{
    if es.len() == 0 {
        Seq::empty()
    } else {
        entries_wire(es.drop_last()) + entry_wire(es.last())
    }
}

/// The wire bytes of the projection of `signal` in context `ctx`.
pub open spec fn projection_wire<S: Signal>(ctx: SignalView, signal: S) -> Seq<u8> {
    let es = projection_entries(ctx, signal);
    wire_header(ctx, spec_signal_identity(signal.spec_signal_bytes()), es.len()) + entries_wire(es)
}

/// `i` is the first entry whose output does not fit.
pub open spec fn first_oversized<O: CanonicalBytes>(es: Seq<(Distinction, O)>, i: int) -> bool {
    &&& 0 <= i < es.len()
    &&& !entry_fits(es[i])
    &&& forall|j: int| 0 <= j < i ==> #[trigger] entry_fits(es[j])
}

/// The bytes the projection identity hashes: domain separator, root,
/// boundary tag and payload, direction tag, signal bytes.
pub open spec fn projection_id_input(ctx: SignalView, sig_bytes: Seq<u8>) -> Seq<u8> {
    PROJECTION_ID_DOMAIN@ + ctx.1@@ + seq![boundary_tag(ctx.3)] + spec_u64_to_le_bytes(boundary_payload(ctx.3))
        + seq![direction_tag(ctx.2)] + sig_bytes
}

/// Projection identity is injective in the spec: the bytes a
/// `ProjectionId` hashes determine the root, the boundary, the direction
/// and the signal bytes, so projections that differ in any of them (for
/// instance only in direction) hash different inputs.
pub proof fn lemma_projection_id_input_injective(c1: SignalView, c2: SignalView, s1: Seq<u8>, s2: Seq<u8>)
    requires
        projection_id_input(c1, s1) == projection_id_input(c2, s2),
    ensures
        c1.1 == c2.1,
        c1.2 == c2.2,
        c1.3 == c2.3,
        s1 == s2,
{
    broadcast use vstd::array::group_array_axioms;

    vstd::bytes::lemma_auto_spec_u64_to_from_le_bytes();
    let a = projection_id_input(c1, s1);
    let b = projection_id_input(c2, s2);
    let p1 = spec_u64_to_le_bytes(boundary_payload(c1.3));
    let p2 = spec_u64_to_le_bytes(boundary_payload(c2.3));
    assert(p1.len() == 8 && p2.len() == 8);
    assert(PROJECTION_ID_DOMAIN@.len() == 21);
    assert(c1.1@@.len() == 16 && c2.1@@.len() == 16);
    assert(a.subrange(21, 37) =~= c1.1@@);
    assert(b.subrange(21, 37) =~= c2.1@@);
    assert(c1.1@ =~= c2.1@);
    assert(a[37] == boundary_tag(c1.3) && b[37] == boundary_tag(c2.3));
    assert(a.subrange(38, 46) =~= p1);
    assert(b.subrange(38, 46) =~= p2);
    assert(boundary_payload(c1.3) == boundary_payload(c2.3));
    assert(a[46] == direction_tag(c1.2) && b[46] == direction_tag(c2.2));
    assert(a.subrange(47, a.len() as int) =~= s1);
    assert(b.subrange(47, b.len() as int) =~= s2);
    match c1.3 {
        Boundary::Hops(n1) => match c2.3 {
            Boundary::Hops(n2) => {
                assert(n1 as u64 == n2 as u64);
            },
            Boundary::Saturated => {},
        },
        Boundary::Saturated => {},
    }
}

/// Append the 8 little-endian bytes of `x`.
pub(crate) fn push_u64_le(out: &mut Vec<u8>, x: u64)
    ensures
        final(out)@ == old(out)@ + spec_u64_to_le_bytes(x),
{
    let b = u64_to_le_bytes(x);
    push_bytes(out, b.as_slice());
}

impl<'e, S: Signal> Projection<'e, S> {
    /// Content-addressed identity: `SHA-256` over the domain separator,
    /// root, boundary, direction and signal bytes. It depends on the spec
    /// alone, not on the cone's contents.
    pub fn projection_id(&self) -> (r: ProjectionId)
        ensures
            r@@ == sha256_digest(projection_id_input(self.ctx(), self.signal().spec_signal_bytes())),
    {
        let mut buf: Vec<u8> = Vec::new();
        push_bytes(&mut buf, PROJECTION_ID_DOMAIN.as_slice());
        push_bytes(&mut buf, self.spec.root.as_bytes().as_slice());
        let (btag, bpayload) = boundary_to_wire(self.spec.boundary);
        buf.push(btag);
        push_u64_le(&mut buf, bpayload);
        buf.push(direction_to_tag(self.spec.direction));
        push_bytes(&mut buf, self.spec.signal.canonical_bytes());
        proof {
            assert(buf@ =~= projection_id_input(self.ctx(), self.signal().spec_signal_bytes()));
        }
        ProjectionId(sha256(buf.as_slice()))
    }

    /// Fallible wire serialization: the header, then each entry in
    /// ascending byte order; `EntryTooLarge` names the first entry whose
    /// output exceeds `u32::MAX` bytes.
    pub fn try_canonical_bytes(&self) -> (r: Result<Vec<u8>, SerializeError>)
        ensures
            r is Ok <==> all_fit(self.entries()),
            r matches Ok(b) ==> b@ == projection_wire(self.ctx(), self.signal()),
            r matches Err(SerializeError::EntryTooLarge { distinction, output_len }) ==> exists|i: int|
                first_oversized(self.entries(), i) && self.entries()[i].0 == distinction && output_len
                    == self.entries()[i].1.spec_canonical_bytes().len(),
    {
        proof {
            use_type_invariant(self);
        }
        let ghost es = self.entries();
        let mut out: Vec<u8> = Vec::new();
        push_bytes(&mut out, WIRE_MAGIC.as_slice());
        out.push(WIRE_VERSION);
        push_bytes(&mut out, self.spec.root.as_bytes().as_slice());
        let (btag, bpayload) = boundary_to_wire(self.spec.boundary);
        out.push(btag);
        push_u64_le(&mut out, bpayload);
        out.push(direction_to_tag(self.spec.direction));
        let sig = signal_identity(&self.spec.signal);
        push_bytes(&mut out, sig.as_slice());
        let entries = self.output.iter();
        push_u64_le(&mut out, entries.len() as u64);
        proof {
            assert(out@ =~= wire_header(self.ctx(), spec_signal_identity(self.signal().spec_signal_bytes()), es.len()));
        }
        let ghost header = out@;
        let mut i: usize = 0;
        while i < entries.len()
            invariant
                entries@ == es,
                es == self.entries(),
                0 <= i <= es.len(),
                out@ == header + entries_wire(es.take(i as int)),
                forall|j: int| 0 <= j < i ==> #[trigger] entry_fits(es[j]),
            decreases es.len() - i,
        {
            let vb = entries[i].1.canonical_bytes();
            if vb.len() > u32::MAX as usize {
                proof {
                    assert(!entry_fits(es[i as int]));
                    assert(first_oversized(es, i as int));
                }
                return Err(SerializeError::EntryTooLarge { distinction: entries[i].0, output_len: vb.len() });
            }
            push_bytes(&mut out, entries[i].0.as_bytes().as_slice());
            let lb = vstd::bytes::u32_to_le_bytes(vb.len() as u32);
            push_bytes(&mut out, lb.as_slice());
            push_bytes(&mut out, vb.as_slice());
            proof {
                assert(es.take(i + 1).drop_last() =~= es.take(i as int));
                assert(es.take(i + 1).last() == es[i as int]);
                assert(out@ =~= header + entries_wire(es.take(i + 1)));
            }
            i = i + 1;
        }
        proof {
            assert(es.take(es.len() as int) =~= es);
        }
        Ok(out)
    }

    /// Wire serialization, for projections whose every output fits the
    /// wire's 32-bit length field.
    pub fn canonical_bytes(&self) -> (r: Vec<u8>)
        requires
            all_fit(self.entries()),
        ensures
            r@ == projection_wire(self.ctx(), self.signal()),
    {
        match self.try_canonical_bytes() {
            Ok(b) => b,
            Err(_) => {
                proof {
                    assert(false);
                }
                Vec::new()
            },
        }
    }
}

// ---------------------------------------------------------------------------
// Restore
// ---------------------------------------------------------------------------

/// The little-endian `u64` at offset `at`.
pub open spec fn wire_u64(bytes: Seq<u8>, at: int) -> u64 {
    spec_u64_from_le_bytes(bytes.subrange(at, at + 8))
}

/// The root bytes of a wire header.
pub open spec fn wire_root(bytes: Seq<u8>) -> [u8; 16] {
    arr16(bytes.subrange(5, 21))
}

/// The boundary a (valid) wire header names.
pub open spec fn wire_boundary(bytes: Seq<u8>) -> Boundary {
    if bytes[21] == 0 {
        Boundary::Hops(wire_u64(bytes, 22) as usize)
    } else {
        Boundary::Saturated
    }
}

/// The direction a (valid) wire header names.
pub open spec fn wire_direction(bytes: Seq<u8>) -> Direction {
    if bytes[30] == 0 {
        Direction::Upstream
    } else if bytes[30] == 1 {
        Direction::Downstream
    } else {
        Direction::Undirected
    }
}

/// The signal identity a wire header carries.
pub open spec fn wire_signal_id(bytes: Seq<u8>) -> [u8; 16] {
    arr16(bytes.subrange(31, 47))
}

/// The header checks of a restore, in order, against state `v` and the
/// identity of the signal passed: length, magic, version, registered root,
/// boundary payload width and tag, direction tag, signal identity, entry
/// count width. On success, the root, boundary and direction named.
pub open spec fn restore_header(v: EngineView, bytes: Seq<u8>, sig_id: [u8; 16]) -> Result<
    (Distinction, Boundary, Direction),
    RestoreError,
> {
    if bytes.len() < WIRE_HEADER_LEN {
        Err(RestoreError::Malformed { offset: 0, reason: "wire bytes shorter than 55-byte header" })
    } else if bytes.subrange(0, 4) != WIRE_MAGIC@ {
        Err(RestoreError::Malformed { offset: 0, reason: "bad magic" })
    } else if bytes[4] != WIRE_VERSION {
        Err(RestoreError::Malformed { offset: 4, reason: "unsupported version" })
    } else if !v.contains_key(wire_root(bytes)) {
        Err(RestoreError::ForeignEngine)
    } else if bytes[21] == 0 && wire_u64(bytes, 22) > usize::MAX {
        Err(RestoreError::IntegerOverflow { field: "boundary_payload", value: wire_u64(bytes, 22) })
    } else if bytes[21] > 1 {
        Err(RestoreError::Malformed { offset: 21, reason: "unknown boundary tag" })
    } else if bytes[30] > 2 {
        Err(RestoreError::Malformed { offset: 30, reason: "unknown direction tag" })
    } else if wire_signal_id(bytes) != sig_id {
        Err(RestoreError::SignalMismatch { expected: sig_id, actual: wire_signal_id(bytes) })
    } else if wire_u64(bytes, 47) > usize::MAX {
        Err(RestoreError::IntegerOverflow { field: "entry_count", value: wire_u64(bytes, 47) })
    } else {
        Ok((Distinction::mk(wire_root(bytes)), wire_boundary(bytes), wire_direction(bytes)))
    }
}

/// A restore's outcome: the header checks, then a byte-for-byte
/// comparison with the projection this state re-materializes.
pub open spec fn restore_outcome<S: Signal>(v: EngineView, bytes: Seq<u8>, signal: S) -> Result<
    (Distinction, Boundary, Direction),
    RestoreError,
> {
    match restore_header(v, bytes, spec_signal_identity(signal.spec_signal_bytes())) {
        Err(e) => Err(e),
        Ok(h) => if projection_wire((v, h.0, h.2, h.1), signal) == bytes {
            Ok(h)
        } else {
            Err(RestoreError::ForeignEngine)
        },
    }
}

/// The cone a header names when its length, magic, version, root and tags
/// pass, whatever signal identity it carries.
pub open spec fn restore_target(v: EngineView, bytes: Seq<u8>) -> Option<(Distinction, Boundary, Direction)> {
    if bytes.len() >= WIRE_HEADER_LEN && bytes.subrange(0, 4) == WIRE_MAGIC@ && bytes[4] == WIRE_VERSION
        && v.contains_key(wire_root(bytes)) && bytes[21] <= 1 && bytes[30] <= 2 && !(bytes[21] == 0 && wire_u64(
        bytes,
        22,
    ) > usize::MAX) {
        Some((Distinction::mk(wire_root(bytes)), wire_boundary(bytes), wire_direction(bytes)))
    } else {
        None
    }
}

fn read16(bytes: &[u8], at: usize) -> (r: [u8; 16])
    requires
        at + 16 <= bytes@.len(),
    ensures
        r@ == bytes@.subrange(at as int, at + 16),
        r == arr16(bytes@.subrange(at as int, at + 16)),
{
    broadcast use vstd::array::group_array_axioms;
    let n = bytes.len();
    let mut r = [0u8; 16];
    for i in 0..16
        invariant
            at + 16 <= bytes@.len(),
            n == bytes@.len(),
            forall|j: int| 0 <= j < i ==> r[j] == bytes@[at + j],
    {
        r[i] = bytes[at + i];
    }
    proof {
        assert(r@ =~= bytes@.subrange(at as int, at + 16));
        lemma_arr16(bytes@.subrange(at as int, at + 16));
        assert(r =~= arr16(bytes@.subrange(at as int, at + 16)));
    }
    r
}

fn read8(bytes: &[u8], at: usize) -> (r: [u8; 8])
    requires
        at + 8 <= bytes@.len(),
    ensures
        r@ == bytes@.subrange(at as int, at + 8),
{
    broadcast use vstd::array::group_array_axioms;
    let n = bytes.len();
    let mut r = [0u8; 8];
    for i in 0..8
        invariant
            at + 8 <= bytes@.len(),
            n == bytes@.len(),
            forall|j: int| 0 <= j < i ==> r[j] == bytes@[at + j],
    {
        r[i] = bytes[at + i];
    }
    proof {
        assert(r@ =~= bytes@.subrange(at as int, at + 8));
    }
    r
}

/// Byte-wise equality of two byte slices.
pub(crate) fn slices_equal(a: &[u8], b: &[u8]) -> (r: bool)
    ensures
        r == (a@ == b@),
{
    if a.len() != b.len() {
        return false;
    }
    let mut i: usize = 0;
    while i < a.len()
        invariant
            a@.len() == b@.len(),
            0 <= i <= a@.len(),
            forall|j: int| 0 <= j < i ==> a@[j] == b@[j],
        decreases a@.len() - i,
    {
        if a[i] != b[i] {
            return false;
        }
        i = i + 1;
    }
    proof {
        assert(a@ =~= b@);
    }
    true
}

impl DistinctionEngine {
    /// Restore a projection from wire bytes: check the header (see
    /// [`restore_header`]), re-materialize against this engine, and accept
    /// only if the regenerated bytes equal the input. Wire bytes are proof
    /// that this engine can reproduce the projection, not data to trust.
    pub fn restore_projection<S: Signal>(&self, bytes: &[u8], signal: S) -> (r: Result<Projection<'_, S>, RestoreError>)
        requires
            self.wf(),
            restore_target(self@, bytes@) matches Some(t) ==> all_fit(projection_entries((self@, t.0, t.2, t.1), signal)),
        ensures
            r is Ok <==> restore_outcome(self@, bytes@, signal) is Ok,
            r matches Err(e) ==> restore_outcome(self@, bytes@, signal) == Err::<(Distinction, Boundary, Direction), RestoreError>(e),
            r matches Ok(p) ==> restore_outcome(self@, bytes@, signal) == Ok::<(Distinction, Boundary, Direction), RestoreError>(
                (p.ctx().1, p.ctx().3, p.ctx().2),
            ) && p.ctx().0 == self@ && p.signal() == signal && p.entries() == projection_entries(p.ctx(), signal),
    {
        let ghost bs = bytes@;
        let ghost sid = spec_signal_identity(signal.spec_signal_bytes());
        if bytes.len() < WIRE_HEADER_LEN {
            return Err(RestoreError::Malformed { offset: 0, reason: "wire bytes shorter than 55-byte header" });
        }
        if !(bytes[0] == WIRE_MAGIC[0] && bytes[1] == WIRE_MAGIC[1] && bytes[2] == WIRE_MAGIC[2] && bytes[3]
            == WIRE_MAGIC[3]) {
            proof {
                assert(bs.subrange(0, 4) != WIRE_MAGIC@) by {
                    if bs.subrange(0, 4) == WIRE_MAGIC@ {
                        assert(bs.subrange(0, 4)[0] == bs[0]);
                        assert(bs.subrange(0, 4)[1] == bs[1]);
                        assert(bs.subrange(0, 4)[2] == bs[2]);
                        assert(bs.subrange(0, 4)[3] == bs[3]);
                    }
                }
            }
            return Err(RestoreError::Malformed { offset: 0, reason: "bad magic" });
        }
        proof {
            assert(bs.subrange(0, 4) =~= WIRE_MAGIC@);
        }
        if bytes[4] != WIRE_VERSION {
            return Err(RestoreError::Malformed { offset: 4, reason: "unsupported version" });
        }
        let root_bytes = read16(bytes, 5);
        let raw = RawDistinctionId::from_bytes(root_bytes);
        let root = match self.verify(raw) {
            Ok(d) => d,
            Err(e) => {
                return Err(RestoreError::from(e));
            },
        };
        let btag = bytes[21];
        let bpayload = u64_from_le_bytes(read8(bytes, 22).as_slice());
        let boundary = if btag == 0 {
            if bpayload > usize::MAX as u64 {
                return Err(RestoreError::IntegerOverflow { field: "boundary_payload", value: bpayload });
            }
            Boundary::Hops(bpayload as usize)
        } else if btag == 1 {
            Boundary::Saturated
        } else {
            return Err(RestoreError::Malformed { offset: 21, reason: "unknown boundary tag" });
        };
        let dtag = bytes[30];
        let direction = if dtag == 0 {
            Direction::Upstream
        } else if dtag == 1 {
            Direction::Downstream
        } else if dtag == 2 {
            Direction::Undirected
        } else {
            return Err(RestoreError::Malformed { offset: 30, reason: "unknown direction tag" });
        };
        let sig_id = read16(bytes, 31);
        let expected = signal_identity(&signal);
        if !crate::distinction::bytes_eq(&sig_id, &expected) {
            return Err(RestoreError::SignalMismatch { expected, actual: sig_id });
        }
        let count = u64_from_le_bytes(read8(bytes, 47).as_slice());
        if count > usize::MAX as u64 {
            return Err(RestoreError::IntegerOverflow { field: "entry_count", value: count });
        }
        proof {
            assert(root == Distinction::mk(wire_root(bs)));
            assert(boundary == wire_boundary(bs));
            assert(direction == wire_direction(bs));
            assert(restore_header(self@, bs, sid) == Ok::<(Distinction, Boundary, Direction), RestoreError>(
                (root, boundary, direction),
            ));
            assert(restore_target(self@, bs) == Some((root, boundary, direction)));
        }
        let proj = ReadyBuilder { engine: self, root, direction, boundary, signal }.materialize();
        let regenerated = match proj.try_canonical_bytes() {
            Ok(b) => b,
            Err(_) => {
                proof {
                    assert(false);
                }
                return Err(RestoreError::ForeignEngine);
            },
        };
        if !slices_equal(regenerated.as_slice(), bytes) {
            return Err(RestoreError::ForeignEngine);
        }
        Ok(proj)
    }
}

// ---------------------------------------------------------------------------
// Laws
// ---------------------------------------------------------------------------

/// A nonempty finite set of identities has a least element by bytes.
proof fn lemma_min_key(keys: Set<[u8; 16]>) -> (m: [u8; 16])
    requires
        keys.finite(),
        keys.len() > 0,
    ensures
        keys.contains(m),
        forall|k: [u8; 16]| #[trigger] keys.contains(k) && k != m ==> bytes_lt(m@, k@),
    decreases keys.len(),
{
    let y = keys.choose();
    let rest = keys.remove(y);
    if rest.len() == 0 {
        assert forall|k: [u8; 16]| #[trigger] keys.contains(k) && k != y implies bytes_lt(y@, k@) by {
            assert(rest.contains(k));
        }
        y
    } else {
        let m2 = lemma_min_key(rest);
        assert(y@ != m2@) by {
            if y@ == m2@ {
                assert(y =~= m2);
            }
        }
        assert(y@.take(0) =~= m2@.take(0));
        lemma_bytes_lt_total(y@, m2@, 0);
        if bytes_lt(y@, m2@) {
            assert forall|k: [u8; 16]| #[trigger] keys.contains(k) && k != y implies bytes_lt(y@, k@) by {
                assert(rest.contains(k));
                if k != m2 {
                    lemma_bytes_lt_trans(y@, m2@, k@);
                }
            }
            y
        } else {
            assert forall|k: [u8; 16]| #[trigger] keys.contains(k) && k != m2 implies bytes_lt(m2@, k@) by {
                if k != y {
                    assert(rest.contains(k));
                }
            }
            m2
        }
    }
}

/// Every finite set of identities has a listing ascending by bytes, as
/// long as the set.
pub proof fn lemma_ascending_exists(keys: Set<[u8; 16]>)
    requires
        keys.finite(),
    ensures
        exists|s: Seq<Distinction>| lists_ascending(s, keys) && s.len() == keys.len(),
    decreases keys.len(),
{
    if keys.len() == 0 {
        let s = Seq::<Distinction>::empty();
        assert forall|k: [u8; 16]| #[trigger] keys.contains(k) implies exists|i: int| 0 <= i < s.len() && s[i]@ == k by {
            assert(keys.remove(k).len() < keys.len());
        }
        assert(lists_ascending(s, keys) && s.len() == keys.len());
    } else {
        let m = lemma_min_key(keys);
        let rest = keys.remove(m);
        lemma_ascending_exists(rest);
        let t = choose|t: Seq<Distinction>| lists_ascending(t, rest) && t.len() == rest.len();
        let s = seq![Distinction::mk(m)] + t;
        assert forall|i: int, j: int| 0 <= i < j < s.len() implies bytes_lt(#[trigger] s[i]@@, #[trigger] s[j]@@) by {
            if i == 0 {
                assert(s[j] == t[j - 1]);
                assert(rest.contains(t[j - 1]@));
            } else {
                assert(s[i] == t[i - 1] && s[j] == t[j - 1]);
            }
        }
        assert forall|i: int| #![trigger s[i]] 0 <= i < s.len() implies keys.contains(s[i]@) by {
            if i > 0 {
                assert(s[i] == t[i - 1]);
            }
        }
        assert forall|k: [u8; 16]| #[trigger] keys.contains(k) implies exists|i: int| 0 <= i < s.len() && s[i]@ == k by {
            if k == m {
                assert(s[0]@ == k);
            } else {
                assert(rest.contains(k));
                let i = choose|i: int| 0 <= i < t.len() && t[i]@ == k;
                assert(s[i + 1] == t[i]);
            }
        }
        assert(rest.len() + 1 == keys.len());
        assert(lists_ascending(s, keys) && s.len() == keys.len());
    }
}

/// The cone of a registered root, in a well-formed engine, is listed
/// ascending by [`cone_keys`], with at most `usize::MAX` members.
pub proof fn lemma_cone_keys(e: &DistinctionEngine, ctx: SignalView)
    requires
        e.wf(),
        ctx.0 == e@,
    ensures
        lists_ascending(cone_keys(ctx), ctx_cone(ctx)),
        cone_keys(ctx).len() <= usize::MAX,
{
    e.lemma_wf_view();
    e.lemma_len_bound();
    let cone = ctx_cone(ctx);
    if e@.contains_key(ctx.1@) {
        crate::cone::lemma_within_registered(e@, ctx.2, ctx.1@, crate::cone::bound_hops(e@, ctx.3));
    } else {
        assert(cone =~= Set::<[u8; 16]>::empty());
    }
    vstd::set_lib::lemma_len_subset(cone, e@.dom());
    lemma_ascending_exists(cone);
    let w = choose|s: Seq<Distinction>| lists_ascending(s, cone) && s.len() == cone.len();
    lemma_ascending_unique(w, cone_keys(ctx), cone);
}

/// Projection round trip (Cond D): on the engine that produced them, a
/// projection's wire bytes restore under the same signal to the same
/// root, boundary and direction, so to the same entries.
pub proof fn lemma_restore_round_trip<S: Signal>(e: &DistinctionEngine, root: Distinction, d: Direction, b: Boundary, signal: S)
    requires
        e.wf(),
        e@.contains_key(root@),
        all_fit(projection_entries((e@, root, d, b), signal)),
    ensures
        restore_target(e@, projection_wire((e@, root, d, b), signal)) == Some((root, b, d)),
        restore_outcome(e@, projection_wire((e@, root, d, b), signal), signal) == Ok::<
            (Distinction, Boundary, Direction),
            RestoreError,
        >((root, b, d)),
{
    broadcast use vstd::array::group_array_axioms;
    let ctx = (e@, root, d, b);
    let es = projection_entries(ctx, signal);
    let sid = spec_signal_identity(signal.spec_signal_bytes());
    let header = wire_header(ctx, sid, es.len());
    let bs = projection_wire(ctx, signal);
    lemma_cone_keys(e, ctx);
    vstd::bytes::lemma_auto_spec_u64_to_from_le_bytes();
    let pl = spec_u64_to_le_bytes(boundary_payload(b));
    let cn = spec_u64_to_le_bytes(es.len() as u64);
    assert(pl.len() == 8 && cn.len() == 8);
    assert(header.len() == 55);
    assert(bs.subrange(0, 55) =~= header);
    assert(bs.subrange(0, 4) =~= WIRE_MAGIC@);
    assert(bs[4] == WIRE_VERSION);
    assert(bs.subrange(5, 21) =~= root@@);
    lemma_arr16(root@@);
    assert(arr16(root@@) =~= root@);
    assert(bs[21] == boundary_tag(b));
    assert(bs.subrange(22, 30) =~= pl);
    assert(bs[30] == direction_tag(d));
    assert(bs.subrange(31, 47) =~= sid@);
    lemma_arr16(sid@);
    assert(arr16(sid@) =~= sid);
    assert(bs.subrange(47, 55) =~= cn);
    assert(wire_u64(bs, 22) == boundary_payload(b));
    assert(wire_u64(bs, 47) == es.len() as u64);
    assert(wire_boundary(bs) == b);
    assert(wire_direction(bs) == d);
    assert(restore_header(e@, bs, sid) == Ok::<(Distinction, Boundary, Direction), RestoreError>((root, b, d)));
}

/// The state a synthesis history leaves on a fresh engine: the pairs
/// synthesized in order.
pub open spec fn history_view(h: Seq<(Distinction, Distinction)>) -> EngineView
    decreases h.len(),
{
    if h.len() == 0 {
        fresh_view()
    } else {
        synth_view(history_view(h.drop_last()), h.last().0, h.last().1)
    }
}

/// Cross-engine byte equivalence: engines that ran the same synthesis
/// history hold the same state, so the same projection (root, direction,
/// boundary, signal) materializes to the same entries and the same wire
/// bytes on each.
pub proof fn lemma_cross_engine_equivalence<S: Signal>(
    v1: EngineView,
    v2: EngineView,
    h: Seq<(Distinction, Distinction)>,
    root: Distinction,
    d: Direction,
    b: Boundary,
    signal: S,
)
    requires
        v1 == history_view(h),
        v2 == history_view(h),
    ensures
        projection_entries((v1, root, d, b), signal) == projection_entries((v2, root, d, b), signal),
        projection_wire((v1, root, d, b), signal) == projection_wire((v2, root, d, b), signal),
{
}

/// Every output of a core signal fits the wire's 32-bit length field: a
/// parent record is 1 or 33 bytes, a count 8.
pub proof fn lemma_core_outputs_fit(ctx: SignalView)
    ensures
        all_fit(projection_entries(ctx, Adjacency)),
        all_fit(projection_entries(ctx, Degree)),
        all_fit(projection_entries(ctx, HopDistance)),
{
    vstd::bytes::lemma_auto_spec_u64_to_from_le_bytes();
    let ea = projection_entries(ctx, Adjacency);
    assert forall|i: int| 0 <= i < ea.len() implies #[trigger] entry_fits(ea[i]) by {
        match ea[i].1 {
            None => {},
            Some(pp) => {
                assert(pp.0@@.len() == 16 && pp.1@@.len() == 16);
            },
        }
    }
    let ed = projection_entries(ctx, Degree);
    assert forall|i: int| 0 <= i < ed.len() implies #[trigger] entry_fits(ed[i]) by {
        assert(spec_u64_to_le_bytes(ed[i].1 as u64).len() == 8);
    }
    let eh = projection_entries(ctx, HopDistance);
    assert forall|i: int| 0 <= i < eh.len() implies #[trigger] entry_fits(eh[i]) by {
        assert(spec_u64_to_le_bytes(eh[i].1 as u64).len() == 8);
    }
}

/// Restore round trip for the core signals: their projections always fit
/// the wire, so their bytes always restore, on the producing engine, to
/// the same root, boundary and direction.
pub proof fn lemma_core_restore_round_trip(e: &DistinctionEngine, root: Distinction, d: Direction, b: Boundary)
    requires
        e.wf(),
        e@.contains_key(root@),
    ensures
        restore_outcome(e@, projection_wire((e@, root, d, b), Adjacency), Adjacency) == Ok::<
            (Distinction, Boundary, Direction),
            RestoreError,
        >((root, b, d)),
        restore_outcome(e@, projection_wire((e@, root, d, b), Degree), Degree) == Ok::<
            (Distinction, Boundary, Direction),
            RestoreError,
        >((root, b, d)),
        restore_outcome(e@, projection_wire((e@, root, d, b), HopDistance), HopDistance) == Ok::<
            (Distinction, Boundary, Direction),
            RestoreError,
        >((root, b, d)),
{
    lemma_core_outputs_fit((e@, root, d, b));
    lemma_restore_round_trip(e, root, d, b, Adjacency);
    lemma_restore_round_trip(e, root, d, b, Degree);
    lemma_restore_round_trip(e, root, d, b, HopDistance);
}

/// A registered root is in its own cone; with `Hops(0)` it is the whole
/// cone.
pub proof fn lemma_root_in_cone(v: EngineView, root: Distinction, d: Direction, b: Boundary)
    requires
        v.contains_key(root@),
    ensures
        cone_set(v, d, root, b).contains(root@),
        b == Boundary::Hops(0) ==> cone_set(v, d, root, b) == set![root@],
{
    crate::cone::lemma_within_mono(v, d, root@, 0, crate::cone::bound_hops(v, b));
}

} // verus!
