//! The [`Distinction`] identity type, its untrusted twin
//! [`RawDistinctionId`], and the byte-level functions that content
//! addressing is built from.

use vstd::prelude::*;
use crate::bindings::sha256_digest;

verus! {

// ---------------------------------------------------------------------------
// Bytes, order, and the content-addressing function
// ---------------------------------------------------------------------------

/// Strict lexicographic order on byte sequences of equal length.
pub open spec fn bytes_lt(a: Seq<u8>, b: Seq<u8>) -> bool {
    exists|i: int| #![trigger a[i], b[i]]
        0 <= i < a.len() && i < b.len() && a.take(i) =~= b.take(i) && a[i] < b[i]
}

/// `bytes_lt` is a strict total order on sequences of equal length.
pub proof fn lemma_bytes_lt_total(a: Seq<u8>, b: Seq<u8>, k: int)
    requires
        a.len() == b.len(),
        0 <= k <= a.len(),
        a.take(k) =~= b.take(k),
        a != b,
    ensures
        bytes_lt(a, b) || bytes_lt(b, a),
    decreases a.len() - k,
{
    if k == a.len() {
        assert(a =~= a.take(k));
        assert(b =~= b.take(k));
    } else if a[k] == b[k] {
        assert(a.take(k + 1) =~= a.take(k).push(a[k]));
        assert(b.take(k + 1) =~= b.take(k).push(b[k]));
        lemma_bytes_lt_total(a, b, k + 1);
    } else if a[k] < b[k] {
        assert(a[k] < b[k]);
    } else {
        assert(b.take(k) =~= a.take(k));
        assert(b[k] < a[k]);
    }
}

/// `bytes_lt` is asymmetric.
pub proof fn lemma_bytes_lt_asym(a: Seq<u8>, b: Seq<u8>)
    requires
        bytes_lt(a, b),
    ensures
        !bytes_lt(b, a),
        a != b,
{
    let i = choose|i: int| #![trigger a[i], b[i]]
        0 <= i < a.len() && i < b.len() && a.take(i) =~= b.take(i) && a[i] < b[i];
    if bytes_lt(b, a) {
        let j = choose|j: int| #![trigger b[j], a[j]]
            0 <= j < b.len() && j < a.len() && b.take(j) =~= a.take(j) && b[j] < a[j];
        if i < j {
            assert(b.take(j)[i] == a.take(j)[i]);
        } else if j < i {
            assert(a.take(i)[j] == b.take(i)[j]);
        }
    }
}

/// `bytes_lt` is transitive.
pub proof fn lemma_bytes_lt_trans(a: Seq<u8>, b: Seq<u8>, c: Seq<u8>)
    requires
        bytes_lt(a, b),
        bytes_lt(b, c),
    ensures
        bytes_lt(a, c),
{
    let i = choose|i: int| #![trigger a[i], b[i]]
        0 <= i < a.len() && i < b.len() && a.take(i) =~= b.take(i) && a[i] < b[i];
    let j = choose|j: int| #![trigger b[j], c[j]]
        0 <= j < b.len() && j < c.len() && b.take(j) =~= c.take(j) && b[j] < c[j];
    if i < j {
        assert(b.take(j)[i] == c.take(j)[i]);
        assert(a.take(i) =~= c.take(i)) by {
            assert forall|t: int| 0 <= t < i implies a.take(i)[t] == c.take(i)[t] by {
                assert(a.take(i)[t] == b.take(i)[t]);
                assert(b.take(j)[t] == c.take(j)[t]);
            }
        }
        assert(a[i] < c[i]);
    } else if j < i {
        assert(a.take(i)[j] == b.take(i)[j]);
        assert(a.take(j) =~= c.take(j)) by {
            assert forall|t: int| 0 <= t < j implies a.take(j)[t] == c.take(j)[t] by {
                assert(a.take(i)[t] == b.take(i)[t]);
                assert(b.take(j)[t] == c.take(j)[t]);
            }
        }
        assert(a[j] < c[j]);
    } else {
        assert(a.take(i) =~= c.take(i)) by {
            assert forall|t: int| 0 <= t < i implies a.take(i)[t] == c.take(i)[t] by {
                assert(a.take(i)[t] == b.take(i)[t]);
                assert(b.take(j)[t] == c.take(j)[t]);
            }
        }
        assert(a[i] < c[i]);
    }
}

/// Facts about the canonical ordering of two different distinctions:
/// it is strict, symmetric in its arguments, holds both, and is a fixed
/// point; so the child is symmetric too (Axiom 2).
pub proof fn lemma_canonical_pair(a: Distinction, b: Distinction)
    requires
        a != b,
    ensures
        bytes_lt(canonical_pair(a, b).0@@, canonical_pair(a, b).1@@),
        canonical_pair(a, b) == canonical_pair(b, a),
        (canonical_pair(a, b).0 == a && canonical_pair(a, b).1 == b) || (canonical_pair(a, b).0 == b
            && canonical_pair(a, b).1 == a),
        canonical_pair(canonical_pair(a, b).0, canonical_pair(a, b).1) == canonical_pair(a, b),
        child_of(a, b) == child_of(b, a),
        child_of(canonical_pair(a, b).0, canonical_pair(a, b).1) == child_of(a, b),
{
    broadcast use group_distinction;
    assert(a@@ != b@@) by {
        if a@@ == b@@ {
            assert(a@ =~= b@);
        }
    }
    assert(a@@.take(0) =~= b@@.take(0));
    lemma_bytes_lt_total(a@@, b@@, 0);
    if bytes_lt(a@@, b@@) {
        lemma_bytes_lt_asym(a@@, b@@);
    } else {
        lemma_bytes_lt_asym(b@@, a@@);
    }
}

/// The array whose first 16 bytes are those of `s` (zero-padded).
pub open spec fn arr16(s: Seq<u8>) -> [u8; 16] {
    arr16_prefix(s, 16)
}

pub open spec fn arr16_prefix(s: Seq<u8>, n: nat) -> [u8; 16]
    decreases n,
{
    if n == 0 {
        vstd::array::spec_array_fill_for_copy_type::<u8, 16>(0u8)
    } else {
        vstd::array::spec_array_update(arr16_prefix(s, (n - 1) as nat), n - 1, s[n - 1])
    }
}

proof fn lemma_arr16_prefix(s: Seq<u8>, n: nat)
    requires
        n <= 16,
        s.len() >= n,
    ensures
        forall|i: int| 0 <= i < n ==> #[trigger] arr16_prefix(s, n)@[i] == s[i],
    decreases n,
{
    broadcast use vstd::array::group_array_axioms;
    if n > 0 {
        lemma_arr16_prefix(s, (n - 1) as nat);
        let prev = arr16_prefix(s, (n - 1) as nat);
        assert(arr16_prefix(s, n)@ == prev@.update(n - 1, s[n - 1]));
        assert forall|i: int| 0 <= i < n implies #[trigger] arr16_prefix(s, n)@[i] == s[i] by {
            if i < n - 1 {
                assert(prev@[i] == s[i]);
            }
        }
    }
}

/// `arr16(s)` holds exactly the first 16 bytes of `s`.
pub proof fn lemma_arr16(s: Seq<u8>)
    requires
        s.len() >= 16,
    ensures
        arr16(s)@ =~= s.take(16),
{
    lemma_arr16_prefix(s, 16);
}

/// Bytes of the first primordial: sixteen zero bytes.
pub open spec fn d0_bytes() -> [u8; 16] {
    vstd::array::spec_array_fill_for_copy_type::<u8, 16>(0u8)
}

/// Bytes of the second primordial: `[1, 0, ..., 0]`.
pub open spec fn d1_bytes() -> [u8; 16] {
    vstd::array::spec_array_update(d0_bytes(), 0, 1u8)
}

pub open spec fn spec_d0() -> Distinction {
    Distinction::mk(d0_bytes())
}

pub open spec fn spec_d1() -> Distinction {
    Distinction::mk(d1_bytes())
}

pub open spec fn is_primordial(d: Distinction) -> bool {
    d == spec_d0() || d == spec_d1()
}

/// Canonical `(min, max)` ordering of two distinctions by their bytes.
pub open spec fn canonical_pair(a: Distinction, b: Distinction) -> ParentPair {
    if bytes_lt(b@@, a@@) {
        (b, a)
    } else {
        (a, b)
    }
}

/// The bytes that SHA-256 is applied to when synthesizing `a` with `b`.
pub open spec fn synthesis_input(a: Distinction, b: Distinction) -> Seq<u8> {
    let (lo, hi) = canonical_pair(a, b);
    lo@@ + hi@@
}

/// Axioms 1-4: the child of `a` and `b` is `a` itself when `a == b`, and
/// otherwise the leading 16 bytes of SHA-256 over the canonically ordered
/// parent bytes.
pub open spec fn child_of(a: Distinction, b: Distinction) -> Distinction {
    if a == b {
        a
    } else {
        Distinction::mk(arr16(sha256_digest(synthesis_input(a, b))))
    }
}

// ---------------------------------------------------------------------------
// Distinction
// ---------------------------------------------------------------------------

/// A distinction, identified solely by its 16 content-addressed bytes.
#[derive(Debug, Clone, Copy, PartialOrd, Ord, Hash)]
pub struct Distinction(pub(crate) [u8; 16]);

impl View for Distinction {
    type V = [u8; 16];

    closed spec fn view(&self) -> [u8; 16] {
        self.0
    }
}

impl Distinction {
    /// The distinction with the given bytes, in spec.
    pub closed spec fn mk(bytes: [u8; 16]) -> Distinction {
        Distinction(bytes)
    }
}

/// A distinction is its bytes.
pub broadcast proof fn lemma_distinction_bytes(b: [u8; 16])
    ensures
        #[trigger] Distinction::mk(b)@ == b,
{
}

/// A distinction is determined by its bytes.
pub broadcast proof fn lemma_distinction_ext(d: Distinction)
    ensures
        Distinction::mk(#[trigger] d@) == d,
{
}

pub broadcast group group_distinction {
    lemma_distinction_bytes,
    lemma_distinction_ext,
}

/// Byte-wise equality of two 16-byte identities.
pub(crate) fn bytes_eq(a: &[u8; 16], b: &[u8; 16]) -> (r: bool)
    ensures
        r == (*a == *b),
{
    broadcast use vstd::array::group_array_axioms;
    let mut i: usize = 0;
    while i < 16
        invariant
            0 <= i <= 16,
            forall|j: int| 0 <= j < i ==> a[j] == b[j],
        decreases 16 - i,
    {
        if a[i] != b[i] {
            return false;
        }
        i = i + 1;
    }
    assert(*a =~= *b);
    true
}

/// Strict lexicographic comparison of two 16-byte identities.
pub(crate) fn bytes_less(a: &[u8; 16], b: &[u8; 16]) -> (r: bool)
    ensures
        r == bytes_lt(a@, b@),
{
    broadcast use vstd::array::group_array_axioms;
    let mut i: usize = 0;
    while i < 16
        invariant
            0 <= i <= 16,
            forall|j: int| 0 <= j < i ==> a[j] == b[j],
        decreases 16 - i,
    {
        if a[i] < b[i] {
            assert(a@.take(i as int) =~= b@.take(i as int));
            assert(a@[i as int] < b@[i as int]);
            return true;
        }
        if a[i] > b[i] {
            assert forall|k: int|
                #![trigger a@[k], b@[k]]
                0 <= k < 16 && a@.take(k) =~= b@.take(k) implies !(a@[k] < b@[k]) by {
                if k > i {
                    assert(a@.take(k)[i as int] == b@.take(k)[i as int]);
                }
            }
            return false;
        }
        i = i + 1;
    }
    assert forall|k: int| #![trigger a@[k], b@[k]] 0 <= k < 16 implies !(a@[k] < b@[k]) by {
        assert(a[k] == b[k]);
    }
    false
}

impl PartialEq for Distinction {
    fn eq(&self, other: &Self) -> (r: bool) {
        bytes_eq(&self.0, &other.0)
    }
}

impl Eq for Distinction {}

impl vstd::std_specs::cmp::PartialEqSpecImpl for Distinction {
    open spec fn obeys_eq_spec() -> bool {
        true
    }

    open spec fn eq_spec(&self, other: &Self) -> bool {
        self@ == other@
    }
}

impl Distinction {
    /// Construct a `Distinction` from bytes without any engine check.
    pub fn from_bytes_unchecked(bytes: [u8; 16]) -> (d: Distinction)
        ensures
            d@ == bytes,
    {
        Distinction(bytes)
    }

    /// Borrow the underlying 16 bytes.
    pub fn as_bytes(&self) -> (r: &[u8; 16])
        ensures
            *r == self@,
    {
        &self.0
    }

    /// Equality of two distinctions, usable in verified code.
    pub fn same_as(&self, other: &Distinction) -> (r: bool)
        ensures
            r == (*self == *other),
    {
        bytes_eq(&self.0, &other.0)
    }
}

/// Canonical `(min, max)` parent pair recorded for a non-primordial
/// distinction: `pair.0.as_bytes() < pair.1.as_bytes()`.
pub type ParentPair = (Distinction, Distinction);

/// Bytes crossing into the crate from outside (wire, hex, checkpoint) that
/// make no claim of engine membership. [`DistinctionEngine::verify`] turns
/// them into a [`Distinction`] when the engine holds them.
#[derive(Debug, Clone, Copy, PartialOrd, Ord, Hash)]
pub struct RawDistinctionId(pub(crate) [u8; 16]);

impl View for RawDistinctionId {
    type V = [u8; 16];

    closed spec fn view(&self) -> [u8; 16] {
        self.0
    }
}

impl PartialEq for RawDistinctionId {
    fn eq(&self, other: &Self) -> (r: bool) {
        bytes_eq(&self.0, &other.0)
    }
}

impl Eq for RawDistinctionId {}

impl vstd::std_specs::cmp::PartialEqSpecImpl for RawDistinctionId {
    open spec fn obeys_eq_spec() -> bool {
        true
    }

    open spec fn eq_spec(&self, other: &Self) -> bool {
        self@ == other@
    }
}

impl RawDistinctionId {
    /// Wrap 16 bytes; no engine membership is claimed.
    pub fn from_bytes(bytes: [u8; 16]) -> (r: RawDistinctionId)
        ensures
            r@ == bytes,
    {
        RawDistinctionId(bytes)
    }

    /// Borrow the underlying 16 bytes.
    pub fn as_bytes(&self) -> (r: &[u8; 16])
        ensures
            *r == self@,
    {
        &self.0
    }
}


} // verus!
