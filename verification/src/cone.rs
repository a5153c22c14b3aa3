//! Cones of the distinction graph: the distinctions within a number of
//! hops of a root, following parent edges, child edges or both, and the
//! breadth-first traversal that lists them with their exact hop distance.

use vstd::prelude::*;
use crate::distinction::{Distinction, bytes_lt, lemma_bytes_lt_total, lemma_bytes_lt_asym, lemma_bytes_lt_trans};
use crate::engine::{DistinctionEngine, EngineView, view_wf, parent_lo, parent_hi, is_parentage_of};
use crate::replay::Entry;
use crate::projection::{Boundary, Direction};

verus! {

broadcast use crate::distinction::group_distinction;

/// `y` is one of the recorded parents of the registered node `x`.
pub open spec fn parent_edge(v: EngineView, x: [u8; 16], y: [u8; 16]) -> bool {
    v.contains_key(x) && match v[x] {
        Some(pp) => pp.0@ == y || pp.1@ == y,
        None => false,
    }
}

/// One traversal step from `x` to `y` in direction `dir`.
pub open spec fn cone_step(v: EngineView, dir: Direction, x: [u8; 16], y: [u8; 16]) -> bool {
    match dir {
        Direction::Upstream => parent_edge(v, x, y),
        Direction::Downstream => parent_edge(v, y, x),
        Direction::Undirected => parent_edge(v, x, y) || parent_edge(v, y, x),
    }
}

/// The nodes one step from some node of `w`.
pub open spec fn step_set(v: EngineView, dir: Direction, w: Set<[u8; 16]>) -> Set<[u8; 16]> {
    Set::new(|y: [u8; 16]| exists|x: [u8; 16]| #[trigger] w.contains(x) && #[trigger] cone_step(v, dir, x, y))
}

/// The nodes within `k` hops of `root`.
pub open spec fn within(v: EngineView, dir: Direction, root: [u8; 16], k: nat) -> Set<[u8; 16]>
    decreases k,
{
    if k == 0 {
        set![root]
    } else {
        let w = within(v, dir, root, (k - 1) as nat);
        w.union(step_set(v, dir, w))
    }
}

/// The hop count a boundary allows: `n` for `Hops(n)`; for `Saturated`,
/// the number of registered nodes, which no shortest path reaches.
pub open spec fn bound_hops(v: EngineView, b: Boundary) -> nat {
    match b {
        Boundary::Hops(n) => n as nat,
        Boundary::Saturated => v.dom().len(),
    }
}

/// The cone of `root`: every node within the boundary; empty when the
/// root is not registered.
pub open spec fn cone_set(v: EngineView, dir: Direction, root: Distinction, b: Boundary) -> Set<[u8; 16]> {
    if v.contains_key(root@) {
        within(v, dir, root@, bound_hops(v, b))
    } else {
        Set::empty()
    }
}

/// `d` is first reached at exactly `h` hops from `root`.
pub open spec fn first_at(v: EngineView, dir: Direction, root: [u8; 16], d: [u8; 16], h: nat) -> bool {
    &&& within(v, dir, root, h).contains(d)
    &&& (h == 0 || !within(v, dir, root, (h - 1) as nat).contains(d))
}

/// The nodes first reached at exactly `k` hops.
pub open spec fn frontier_set(v: EngineView, dir: Direction, root: [u8; 16], k: nat) -> Set<[u8; 16]> {
    if k == 0 {
        within(v, dir, root, 0)
    } else {
        within(v, dir, root, k).difference(within(v, dir, root, (k - 1) as nat))
    }
}

/// `s` lists the cone, strictly ascending by bytes, each node with the
/// hop count at which it is first reached.
pub open spec fn cone_listing(v: EngineView, dir: Direction, root: Distinction, b: Boundary, s: Seq<(Distinction, usize)>) -> bool {
    &&& forall|i: int, j: int| 0 <= i < j < s.len() ==> bytes_lt(#[trigger] s[i].0@@, #[trigger] s[j].0@@)
    &&& forall|i: int| #![trigger s[i]] 0 <= i < s.len() ==> cone_set(v, dir, root, b).contains(s[i].0@)
        && first_at(v, dir, root@, s[i].0@, s[i].1 as nat)
    &&& forall|k: [u8; 16]| #[trigger] cone_set(v, dir, root, b).contains(k) ==> exists|i: int|
        0 <= i < s.len() && s[i].0@ == k
}

/// Reach only grows with the hop count.
pub proof fn lemma_within_mono(v: EngineView, dir: Direction, root: [u8; 16], a: nat, b: nat)
    requires
        a <= b,
    ensures
        within(v, dir, root, a).subset_of(within(v, dir, root, b)),
    decreases b,
{
    if a < b {
        lemma_within_mono(v, dir, root, a, (b - 1) as nat);
    }
}

/// A node first reached at `k + 1` hops steps from a node first reached
/// at `k` hops.
pub proof fn lemma_new_from_frontier(v: EngineView, dir: Direction, root: [u8; 16], k: nat, y: [u8; 16])
    requires
        within(v, dir, root, k + 1).contains(y),
        !within(v, dir, root, k).contains(y),
    ensures
        exists|x: [u8; 16]| #[trigger] frontier_set(v, dir, root, k).contains(x) && cone_step(v, dir, x, y),
{
    let w = within(v, dir, root, k);
    assert(step_set(v, dir, w).contains(y));
    let x = choose|x: [u8; 16]| #[trigger] w.contains(x) && #[trigger] cone_step(v, dir, x, y);
    if k > 0 {
        let w0 = within(v, dir, root, (k - 1) as nat);
        if w0.contains(x) {
            assert(step_set(v, dir, w0).contains(y));
            assert(w.contains(y));
        }
    }
    assert(frontier_set(v, dir, root, k).contains(x));
}

/// Equal reach at two hop counts gives equal reach one hop further.
pub proof fn lemma_within_next_eq(v: EngineView, dir: Direction, root: [u8; 16], a: nat, b: nat)
    requires
        within(v, dir, root, a) == within(v, dir, root, b),
    ensures
        within(v, dir, root, a + 1) == within(v, dir, root, b + 1),
{
    assert(within(v, dir, root, a + 1) == within(v, dir, root, a).union(step_set(v, dir, within(v, dir, root, a))));
    assert(within(v, dir, root, b + 1) == within(v, dir, root, b).union(step_set(v, dir, within(v, dir, root, b))));
}

/// Once a step adds nothing, reach never grows again.
pub proof fn lemma_within_stable(v: EngineView, dir: Direction, root: [u8; 16], k: nat, j: nat)
    requires
        within(v, dir, root, k + 1) == within(v, dir, root, k),
        k <= j,
    ensures
        within(v, dir, root, j) == within(v, dir, root, k),
    decreases j,
{
    if j > k {
        lemma_within_stable(v, dir, root, k, (j - 1) as nat);
        lemma_within_next_eq(v, dir, root, (j - 1) as nat, k);
    }
}

/// From a registered root, every reachable node is registered.
pub proof fn lemma_within_registered(v: EngineView, dir: Direction, root: [u8; 16], k: nat)
    requires
        view_wf(v),
        v.contains_key(root),
    ensures
        within(v, dir, root, k).subset_of(v.dom()),
        within(v, dir, root, k).finite(),
    decreases k,
{
    if k > 0 {
        let w = within(v, dir, root, (k - 1) as nat);
        lemma_within_registered(v, dir, root, (k - 1) as nat);
        assert forall|y: [u8; 16]| #[trigger] step_set(v, dir, w).contains(y) implies v.contains_key(y) by {
            let x = choose|x: [u8; 16]| #[trigger] w.contains(x) && #[trigger] cone_step(v, dir, x, y);
            if parent_edge(v, x, y) {
                assert(v[x] is Some);
                assert(v.contains_key(parent_lo(v[x])@));
                assert(v.contains_key(parent_hi(v[x])@));
            }
        }
    }
    vstd::set_lib::lemma_len_subset(within(v, dir, root, k), v.dom());
}

/// A node is first reached at one hop count only.
pub proof fn lemma_first_at_unique(v: EngineView, dir: Direction, root: [u8; 16], d: [u8; 16], h1: nat, h2: nat)
    requires
        first_at(v, dir, root, d, h1),
        first_at(v, dir, root, d, h2),
    ensures
        h1 == h2,
{
    if h1 < h2 {
        lemma_within_mono(v, dir, root, h1, (h2 - 1) as nat);
    } else if h2 < h1 {
        lemma_within_mono(v, dir, root, h2, (h1 - 1) as nat);
    }
}

/// `s` lists the keys of `m` strictly ascending by bytes, each with its
/// value.
pub open spec fn sorted_listing(s: Seq<(Distinction, usize)>, m: Map<[u8; 16], nat>) -> bool {
    &&& forall|i: int, j: int| 0 <= i < j < s.len() ==> bytes_lt(#[trigger] s[i].0@@, #[trigger] s[j].0@@)
    &&& forall|i: int| #![trigger s[i]] 0 <= i < s.len() ==> m.contains_key(s[i].0@) && m[s[i].0@] == s[i].1
    &&& forall|k: [u8; 16]| #[trigger] m.contains_key(k) ==> exists|i: int| 0 <= i < s.len() && s[i].0@ == k
    &&& s.len() == m.dom().len()
    &&& m.dom().finite()
}

/// Binary search: whether `d` is listed, and where it is or would go.
pub(crate) fn listing_find(s: &Vec<(Distinction, usize)>, d: Distinction, Ghost(m): Ghost<Map<[u8; 16], nat>>) -> (r: (
    bool,
    usize,
))
    requires
        sorted_listing(s@, m),
    ensures
        r.1 <= s@.len(),
        r.0 == m.contains_key(d@),
        r.0 ==> s@[r.1 as int].0 == d,
        !r.0 ==> forall|i: int| 0 <= i < r.1 ==> bytes_lt(#[trigger] s@[i].0@@, d@@),
        !r.0 ==> forall|i: int| r.1 <= i < s@.len() ==> bytes_lt(d@@, #[trigger] s@[i].0@@),
{
    let mut lo: usize = 0;
    let mut hi: usize = s.len();
    while lo < hi
        invariant
            sorted_listing(s@, m),
            0 <= lo <= hi <= s@.len(),
            forall|i: int| 0 <= i < lo ==> bytes_lt(#[trigger] s@[i].0@@, d@@),
            forall|i: int| hi <= i < s@.len() ==> !bytes_lt(#[trigger] s@[i].0@@, d@@),
        decreases hi - lo,
    {
        let mid = lo + (hi - lo) / 2;
        if crate::distinction::bytes_less(s[mid].0.as_bytes(), d.as_bytes()) {
            proof {
                assert forall|i: int| 0 <= i < mid + 1 implies bytes_lt(#[trigger] s@[i].0@@, d@@) by {
                    if i < mid {
                        lemma_bytes_lt_trans(s@[i].0@@, s@[mid as int].0@@, d@@);
                    }
                }
            }
            lo = mid + 1;
        } else {
            proof {
                assert forall|i: int| mid <= i < s@.len() implies !bytes_lt(#[trigger] s@[i].0@@, d@@) by {
                    if i > mid && bytes_lt(s@[i].0@@, d@@) {
                        lemma_bytes_lt_trans(s@[mid as int].0@@, s@[i].0@@, d@@);
                    }
                }
            }
            hi = mid;
        }
    }
    let found = lo < s.len() && s[lo].0.same_as(&d);
    proof {
        if found {
            assert(m.contains_key(d@));
        } else {
            assert forall|i: int| lo <= i < s@.len() implies bytes_lt(d@@, #[trigger] s@[i].0@@) by {
                if i == lo {
                    assert(s@[i].0@@ != d@@) by {
                        if s@[i].0@@ == d@@ {
                            assert(s@[i].0@ =~= d@);
                        }
                    }
                    assert(d@@.take(0) =~= s@[i].0@@.take(0));
                    lemma_bytes_lt_total(d@@, s@[i].0@@, 0);
                } else {
                    assert(s@[lo as int].0@@ != d@@) by {
                        if s@[lo as int].0@@ == d@@ {
                            assert(s@[lo as int].0@ =~= d@);
                        }
                    }
                    assert(d@@.take(0) =~= s@[lo as int].0@@.take(0));
                    lemma_bytes_lt_total(d@@, s@[lo as int].0@@, 0);
                    lemma_bytes_lt_trans(d@@, s@[lo as int].0@@, s@[i].0@@);
                }
            }
            if m.contains_key(d@) {
                let i = choose|i: int| 0 <= i < s@.len() && s@[i].0@ == d@;
                if i < lo {
                    lemma_bytes_lt_asym(s@[i].0@@, d@@);
                } else {
                    lemma_bytes_lt_asym(d@@, s@[i].0@@);
                }
            }
        }
    }
    (found, lo)
}

/// Insert an unlisted key at the position [`listing_find`] reported.
pub(crate) fn listing_insert(
    s: &mut Vec<(Distinction, usize)>,
    pos: usize,
    d: Distinction,
    h: usize,
    Ghost(m): Ghost<Map<[u8; 16], nat>>,
)
    requires
        sorted_listing(old(s)@, m),
        !m.contains_key(d@),
        pos <= old(s)@.len(),
        forall|i: int| 0 <= i < pos ==> bytes_lt(#[trigger] old(s)@[i].0@@, d@@),
        forall|i: int| pos <= i < old(s)@.len() ==> bytes_lt(d@@, #[trigger] old(s)@[i].0@@),
    ensures
        sorted_listing(final(s)@, m.insert(d@, h as nat)),
        final(s)@.len() == old(s)@.len() + 1,
{
    let ghost s0 = s@;
    s.insert(pos, (d, h));
    proof {
        let m2 = m.insert(d@, h as nat);
        assert(s@ == s0.insert(pos as int, (d, h)));
        assert forall|i: int, j: int| 0 <= i < j < s@.len() implies bytes_lt(#[trigger] s@[i].0@@, #[trigger] s@[j].0@@) by {
            if j < pos {
            } else if j == pos {
                assert(s@[i] == s0[i]);
            } else if i < pos {
                assert(s@[j] == s0[j - 1]);
                lemma_bytes_lt_trans(s0[i].0@@, d@@, s0[j - 1].0@@);
            } else if i == pos {
                assert(s@[j] == s0[j - 1]);
            } else {
                assert(s@[i] == s0[i - 1] && s@[j] == s0[j - 1]);
            }
        }
        assert forall|i: int| #![trigger s@[i]] 0 <= i < s@.len() implies m2.contains_key(s@[i].0@) && m2[s@[i].0@]
            == s@[i].1 by {
            if i < pos {
                assert(s@[i] == s0[i]);
            } else if i > pos {
                assert(s@[i] == s0[i - 1]);
            }
        }
        assert forall|k: [u8; 16]| #[trigger] m2.contains_key(k) implies exists|i: int| 0 <= i < s@.len() && s@[i].0@
            == k by {
            if k == d@ {
                assert(s@[pos as int].0@ == k);
            } else {
                let i = choose|i: int| 0 <= i < s0.len() && s0[i].0@ == k;
                if i < pos {
                    assert(s@[i] == s0[i]);
                } else {
                    assert(s@[i + 1] == s0[i]);
                }
            }
        }
    }
}

/// The bytes of the first `n` distinctions of `s`.
pub open spec fn listed_upto(s: Seq<Distinction>, n: int) -> Set<[u8; 16]> {
    Set::new(|y: [u8; 16]| exists|t: int| 0 <= t < n && #[trigger] s[t]@ == y)
}

/// The neighbours of `x` one step away in direction `dir`: its parents,
/// the children that the parentage snapshot lists under it, or both.
fn neighbors(engine: &DistinctionEngine, dir: Direction, parentage: &Vec<Entry>, x: Distinction) -> (r: Vec<
    Distinction,
>)
    requires
        engine.wf(),
        dir != Direction::Upstream ==> is_parentage_of(engine@, parentage@),
    ensures
        forall|i: int| #![trigger r@[i]] 0 <= i < r@.len() ==> cone_step(engine@, dir, x@, r@[i]@),
        forall|y: [u8; 16]| #[trigger] cone_step(engine@, dir, x@, y) ==> exists|i: int|
            0 <= i < r@.len() && r@[i]@ == y,
        dir == Direction::Upstream ==> r@ == (if engine@.contains_key(x@) && engine@[x@] is Some {
            seq![parent_lo(engine@[x@]), parent_hi(engine@[x@])]
        } else {
            Seq::<Distinction>::empty()
        }),
{
    let ghost v = engine@;
    let up = match dir {
        Direction::Downstream => false,
        _ => true,
    };
    let down = match dir {
        Direction::Upstream => false,
        _ => true,
    };
    let mut out: Vec<Distinction> = Vec::new();
    if up {
        match engine.parents_of(x) {
            Some(pp) => {
                out.push(pp.0);
                out.push(pp.1);
            },
            None => {},
        }
    }
    proof {
        if dir == Direction::Upstream {
            if v.contains_key(x@) && v[x@] is Some {
                assert(out@ =~= seq![parent_lo(v[x@]), parent_hi(v[x@])]);
            } else {
                assert(out@ =~= Seq::<Distinction>::empty());
            }
        }
        assert forall|y: [u8; 16]| up && #[trigger] parent_edge(v, x@, y) implies exists|i: int|
            0 <= i < out@.len() && out@[i]@ == y by {
            if v[x@].unwrap().0@ == y {
                assert(out@[0]@ == y);
            } else {
                assert(out@[1]@ == y);
            }
        }
    }
    if down {
        let mut k: usize = 0;
        while k < parentage.len()
            invariant
                engine.wf(),
                v == engine@,
                dir != Direction::Upstream,
                up == (dir != Direction::Downstream),
                down == (dir != Direction::Upstream),
                is_parentage_of(v, parentage@),
                0 <= k <= parentage@.len(),
                forall|i: int| #![trigger out@[i]] 0 <= i < out@.len() ==> cone_step(v, dir, x@, out@[i]@),
                forall|y: [u8; 16]| up && #[trigger] parent_edge(v, x@, y) ==> exists|i: int|
                    0 <= i < out@.len() && out@[i]@ == y,
                forall|w: int| #![trigger parentage@[w]] 0 <= w < k && (parentage@[w].1.0 == x || parentage@[w].1.1
                    == x) ==> exists|i: int| 0 <= i < out@.len() && out@[i] == parentage@[w].0,
            decreases parentage@.len() - k,
        {
            let (c, (a, b)) = parentage[k];
            if a.same_as(&x) || b.same_as(&x) {
                let ghost before = out@;
                out.push(c);
                proof {
                    assert(parent_edge(v, c@, x@));
                    assert(out@[before.len() as int] == c);
                    assert forall|i: int| #![trigger out@[i]] 0 <= i < out@.len() implies cone_step(v, dir, x@, out@[i]@) by {
                        if i < before.len() {
                            assert(out@[i] == before[i]);
                        } else {
                            assert(dir != Direction::Upstream);
                            match dir {
                                Direction::Upstream => {},
                                Direction::Downstream => {},
                                Direction::Undirected => {},
                            }
                        }
                    }
                    assert forall|w: int| #![trigger parentage@[w]] 0 <= w < k + 1 && (parentage@[w].1.0 == x
                        || parentage@[w].1.1 == x) implies exists|i: int| 0 <= i < out@.len() && out@[i]
                        == parentage@[w].0 by {
                        if w < k {
                            let i = choose|i: int| 0 <= i < before.len() && before[i] == parentage@[w].0;
                            assert(out@[i] == before[i]);
                        } else {
                            assert(out@[before.len() as int] == parentage@[w].0);
                        }
                    }
                    assert forall|y: [u8; 16]| up && #[trigger] parent_edge(v, x@, y) implies exists|i: int|
                        0 <= i < out@.len() && out@[i]@ == y by {
                        let i = choose|i: int| 0 <= i < before.len() && before[i]@ == y;
                        assert(out@[i] == before[i]);
                    }
                }
            }
            k = k + 1;
        }
        proof {
            assert forall|y: [u8; 16]| #[trigger] parent_edge(v, y, x@) implies exists|i: int|
                0 <= i < out@.len() && out@[i]@ == y by {
                assert(v[y] is Some);
                let w = choose|w: int| 0 <= w < parentage@.len() && parentage@[w].0@ == y;
                assert(v[parentage@[w].0@] == Some(parentage@[w].1));
            }
        }
    }
    out
}

/// Record every unvisited candidate at hop count `h`, appending it to
/// `next` as well.
fn visit_all(
    visited: &mut Vec<(Distinction, usize)>,
    next: &mut Vec<Distinction>,
    cands: &Vec<Distinction>,
    h: usize,
    Ghost(m): Ghost<Map<[u8; 16], nat>>,
) -> (r: (Ghost<Map<[u8; 16], nat>>, Ghost<Seq<int>>))
    requires
        sorted_listing(old(visited)@, m),
    ensures
        sorted_listing(final(visited)@, r.0@),
        r.0@.dom() == m.dom().union(listed_upto(cands@, cands@.len() as int)),
        forall|k: [u8; 16]| #[trigger] m.contains_key(k) ==> r.0@[k] == m[k],
        forall|k: [u8; 16]| #[trigger] r.0@.contains_key(k) && !m.contains_key(k) ==> r.0@[k] == h,
        final(next)@.len() == old(next)@.len() + (final(visited)@.len() - old(visited)@.len()),
        final(visited)@.len() >= old(visited)@.len(),
        forall|j: int| #![trigger final(next)@[j]] 0 <= j < old(next)@.len() ==> final(next)@[j] == old(next)@[j],
        forall|j: int| #![trigger final(next)@[j]] old(next)@.len() <= j < final(next)@.len() ==> r.0@.contains_key(
            final(next)@[j]@,
        ) && !m.contains_key(final(next)@[j]@),
        forall|k: [u8; 16]| #[trigger] r.0@.contains_key(k) && !m.contains_key(k) ==> exists|j: int|
            old(next)@.len() <= j < final(next)@.len() && final(next)@[j]@ == k,
        forall|a: int, b: int|
            old(next)@.len() <= a < b < final(next)@.len() ==> #[trigger] final(next)@[a]@ != #[trigger] final(next)@[b]@,
        r.1@.len() == final(next)@.len() - old(next)@.len(),
        forall|a: int| #![trigger r.1@[a]] 0 <= a < r.1@.len() ==> 0 <= r.1@[a] < cands@.len() && cands@[r.1@[a]]
            == final(next)@[old(next)@.len() + a],
        forall|a: int, b: int| 0 <= a < b < r.1@.len() ==> #[trigger] r.1@[a] < #[trigger] r.1@[b],
{
    let ghost n0 = next@;
    let ghost v0 = visited@;
    let ghost mut mm = m;
    let ghost mut srcs: Seq<int> = Seq::empty();
    let mut t: usize = 0;
    while t < cands.len()
        invariant
            0 <= t <= cands@.len(),
            sorted_listing(visited@, mm),
            mm.dom() == m.dom().union(listed_upto(cands@, t as int)),
            forall|k: [u8; 16]| #[trigger] m.contains_key(k) ==> mm[k] == m[k],
            forall|k: [u8; 16]| #[trigger] mm.contains_key(k) && !m.contains_key(k) ==> mm[k] == h,
            next@.len() == n0.len() + (visited@.len() - v0.len()),
            v0.len() <= visited@.len(),
            forall|j: int| #![trigger next@[j]] 0 <= j < n0.len() ==> next@[j] == n0[j],
            forall|j: int| #![trigger next@[j]] n0.len() <= j < next@.len() ==> mm.contains_key(next@[j]@)
                && !m.contains_key(next@[j]@),
            forall|k: [u8; 16]| #[trigger] mm.contains_key(k) && !m.contains_key(k) ==> exists|j: int|
                n0.len() <= j < next@.len() && next@[j]@ == k,
            forall|a: int, b: int| n0.len() <= a < b < next@.len() ==> #[trigger] next@[a]@ != #[trigger] next@[b]@,
            srcs.len() == next@.len() - n0.len(),
            forall|a: int| #![trigger srcs[a]] 0 <= a < srcs.len() ==> 0 <= srcs[a] < t && cands@[srcs[a]] == next@[n0.len() + a],
            forall|a: int, b: int| 0 <= a < b < srcs.len() ==> #[trigger] srcs[a] < #[trigger] srcs[b],
        decreases cands@.len() - t,
    {
        let d = cands[t];
        let (found, pos) = listing_find(visited, d, Ghost(mm));
        let ghost before = next@;
        if !found {
            listing_insert(visited, pos, d, h, Ghost(mm));
            next.push(d);
            proof {
                mm = mm.insert(d@, h as nat);
                srcs = srcs.push(t as int);
                assert(next@[before.len() as int] == d);
                assert forall|a: int| #![trigger srcs[a]] 0 <= a < srcs.len() implies 0 <= srcs[a] < t + 1
                    && cands@[srcs[a]] == next@[n0.len() + a] by {
                    if a < srcs.len() - 1 {
                        assert(next@[n0.len() + a] == before[n0.len() + a]);
                    }
                }
                assert forall|k: [u8; 16]| #[trigger] mm.contains_key(k) && !m.contains_key(k) implies exists|j: int|
                    n0.len() <= j < next@.len() && next@[j]@ == k by {
                    if k != d@ {
                        let j = choose|j: int| n0.len() <= j < before.len() && before[j]@ == k;
                        assert(next@[j] == before[j]);
                    } else {
                        assert(next@[before.len() as int]@ == k);
                    }
                }
                assert forall|j: int| #![trigger next@[j]] n0.len() <= j < next@.len() implies mm.contains_key(
                    next@[j]@,
                ) && !m.contains_key(next@[j]@) by {
                    if j < before.len() {
                        assert(next@[j] == before[j]);
                    }
                }
                assert forall|a: int, b: int| n0.len() <= a < b < next@.len() implies #[trigger] next@[a]@
                    != #[trigger] next@[b]@ by {
                    assert(next@[a] == before[a]);
                    if b < before.len() {
                        assert(next@[b] == before[b]);
                    } else {
                        assert(mm.contains_key(before[a]@));
                    }
                }
            }
        }
        proof {
            assert(mm.dom() =~= m.dom().union(listed_upto(cands@, t + 1))) by {
                assert forall|y: [u8; 16]| #[trigger] listed_upto(cands@, t + 1).contains(y) implies mm.dom().contains(y) by {
                    let w = choose|w: int| 0 <= w < t + 1 && #[trigger] cands@[w]@ == y;
                    if w < t {
                        assert(listed_upto(cands@, t as int).contains(y));
                    }
                }
                assert forall|y: [u8; 16]| #[trigger] mm.dom().contains(y) && !m.dom().contains(y) implies listed_upto(
                    cands@,
                    t + 1,
                ).contains(y) by {
                    if y == d@ {
                        assert(cands@[t as int]@ == y);
                    } else {
                        assert(listed_upto(cands@, t as int).contains(y));
                        let w = choose|w: int| 0 <= w < t && #[trigger] cands@[w]@ == y;
                        assert(cands@[w]@ == y);
                    }
                }
            }
        }
        t = t + 1;
    }
    (Ghost(mm), Ghost(srcs))
}

/// The nodes one step from one of the first `i` distinctions of `f`.
pub open spec fn reach_upto(v: EngineView, dir: Direction, f: Seq<Distinction>, i: int) -> Set<[u8; 16]> {
    Set::new(|y: [u8; 16]| exists|j: int| 0 <= j < i && #[trigger] cone_step(v, dir, f[j]@, y))
}

/// `s` lists the cone: each node once, with the hop count at which it is
/// first reached, and nothing else.
pub open spec fn cone_members(v: EngineView, dir: Direction, root: Distinction, b: Boundary, s: Seq<(Distinction, usize)>) -> bool {
    &&& forall|i: int, j: int| 0 <= i < j < s.len() ==> #[trigger] s[i].0@ != #[trigger] s[j].0@
    &&& forall|i: int| #![trigger s[i]] 0 <= i < s.len() ==> cone_set(v, dir, root, b).contains(s[i].0@)
        && first_at(v, dir, root@, s[i].0@, s[i].1 as nat)
    &&& forall|k: [u8; 16]| #[trigger] cone_set(v, dir, root, b).contains(k) ==> exists|i: int|
        0 <= i < s.len() && s[i].0@ == k
}

/// `s[j]` was discovered from `s[i]`: `s[i]` is the first listed node one
/// step before it.
pub open spec fn discovered_at(v: EngineView, dir: Direction, s: Seq<(Distinction, usize)>, i: int, j: int) -> bool {
    &&& 0 <= i < j < s.len()
    &&& cone_step(v, dir, s[i].0@, s[j].0@)
    &&& forall|t: int| 0 <= t < i ==> !cone_step(v, dir, #[trigger] s[t].0@, s[j].0@)
}

/// Some listed node discovered `s[j]`.
pub open spec fn has_discoverer(v: EngineView, dir: Direction, s: Seq<(Distinction, usize)>, j: int) -> bool {
    exists|i: int| discovered_at(v, dir, s, i, j)
}

/// `s` is in breadth-first visit order from `root`: the root first at hop
/// 0, hop counts never decreasing, every other node discovered from an
/// earlier one, nodes listed in the order of the nodes they were
/// discovered from, and, upstream, a node's lower parent before its
/// higher one.
pub open spec fn visit_order(v: EngineView, dir: Direction, root: Distinction, s: Seq<(Distinction, usize)>) -> bool {
    &&& s.len() > 0 ==> s[0] == (root, 0usize)
    &&& forall|i: int, j: int| 0 <= i < j < s.len() ==> #[trigger] s[i].1 <= #[trigger] s[j].1
    &&& forall|j: int| 0 < j < s.len() ==> #[trigger] has_discoverer(v, dir, s, j)
    &&& forall|i1: int, j: int, i2: int, k: int|
        j < k && #[trigger] discovered_at(v, dir, s, i1, j) && #[trigger] discovered_at(v, dir, s, i2, k) ==> i1 <= i2
    &&& dir == Direction::Upstream ==> forall|i: int, j: int, k: int|
        j < k && #[trigger] discovered_at(v, dir, s, i, j) && #[trigger] discovered_at(v, dir, s, i, k) ==> s[j].0
            == parent_lo(v[s[i].0@]) && s[k].0 == parent_hi(v[s[i].0@])
}

/// A node is discovered from one listed node only.
proof fn lemma_discovered_unique(v: EngineView, dir: Direction, s: Seq<(Distinction, usize)>, i1: int, i2: int, j: int)
    requires
        discovered_at(v, dir, s, i1, j),
        discovered_at(v, dir, s, i2, j),
    ensures
        i1 == i2,
{
    if i1 < i2 {
        assert(!cone_step(v, dir, s[i1].0@, s[j].0@));
    } else if i2 < i1 {
        assert(!cone_step(v, dir, s[i2].0@, s[j].0@));
    }
}

/// Discovery among listed nodes does not change when more are appended.
proof fn lemma_discovered_prefix(v: EngineView, dir: Direction, s: Seq<(Distinction, usize)>, s2: Seq<(Distinction, usize)>, i: int, j: int)
    requires
        s.len() <= s2.len(),
        forall|t: int| 0 <= t < s.len() ==> #[trigger] s2[t] == s[t],
        0 <= j < s.len(),
    ensures
        discovered_at(v, dir, s2, i, j) == discovered_at(v, dir, s, i, j),
{
    if 0 <= i < j {
        assert(s2[i] == s[i] && s2[j] == s[j]);
        assert forall|t: int| 0 <= t < i implies #[trigger] s2[t] == s[t] by {}
        if discovered_at(v, dir, s, i, j) {
            assert forall|t: int| 0 <= t < i implies !cone_step(v, dir, #[trigger] s2[t].0@, s2[j].0@) by {
                assert(s2[t] == s[t]);
            }
        }
        if discovered_at(v, dir, s2, i, j) {
            assert forall|t: int| 0 <= t < i implies !cone_step(v, dir, #[trigger] s[t].0@, s[j].0@) by {
                assert(s2[t] == s[t]);
            }
        }
    }
}

/// Expanding the node at `p`: appending, in their order among its
/// neighbours `nbs`, neighbours that no node before `p` steps to keeps a
/// visit order whose nodes are all discovered before `p`.
proof fn lemma_visit_extend(
    v: EngineView,
    dir: Direction,
    root: Distinction,
    s: Seq<(Distinction, usize)>,
    s2: Seq<(Distinction, usize)>,
    p: int,
    nbs: Seq<Distinction>,
    srcs: Seq<int>,
    h: usize,
)
    requires
        visit_order(v, dir, root, s),
        forall|i: int, j: int| #[trigger] discovered_at(v, dir, s, i, j) ==> i < p,
        0 <= p < s.len(),
        s2.len() == s.len() + srcs.len(),
        forall|t: int| 0 <= t < s.len() ==> #[trigger] s2[t] == s[t],
        forall|a: int| #![trigger srcs[a]] 0 <= a < srcs.len() ==> 0 <= srcs[a] < nbs.len() && s2[s.len() + a] == (
            nbs[srcs[a]],
            h,
        ),
        forall|a: int, c: int| 0 <= a < c < srcs.len() ==> #[trigger] srcs[a] < #[trigger] srcs[c],
        forall|y: int| #![trigger nbs[y]] 0 <= y < nbs.len() ==> cone_step(v, dir, s[p].0@, nbs[y]@),
        forall|a: int, t: int| 0 <= a < srcs.len() && 0 <= t < p ==> !cone_step(v, dir, #[trigger] s[t].0@, #[trigger] s2[s.len() + a].0@),
        forall|t: int| #![trigger s[t]] 0 <= t < s.len() ==> s[t].1 <= h,
        dir == Direction::Upstream ==> nbs == (if v.contains_key(s[p].0@) && v[s[p].0@] is Some {
            seq![parent_lo(v[s[p].0@]), parent_hi(v[s[p].0@])]
        } else {
            Seq::<Distinction>::empty()
        }),
    ensures
        visit_order(v, dir, root, s2),
        forall|i: int, j: int| #[trigger] discovered_at(v, dir, s2, i, j) ==> i < p + 1,
{
    let n = s.len();
    assert forall|a: int| 0 <= a < srcs.len() implies #[trigger] discovered_at(v, dir, s2, p, n + a) by {
        assert(s2[p] == s[p]);
        assert(s2[n + a] == (nbs[srcs[a]], h));
        assert(cone_step(v, dir, s[p].0@, nbs[srcs[a]]@));
        assert forall|t: int| 0 <= t < p implies !cone_step(v, dir, #[trigger] s2[t].0@, s2[n + a].0@) by {
            assert(s2[t] == s[t]);
        }
    }
    // Discoverers of new entries are `p`; of old ones, as before.
    assert forall|i: int, j: int| #[trigger] discovered_at(v, dir, s2, i, j) implies (if j < n {
        discovered_at(v, dir, s, i, j)
    } else {
        i == p
    }) by {
        if j < n {
            lemma_discovered_prefix(v, dir, s, s2, i, j);
        } else {
            assert(discovered_at(v, dir, s2, p, n + (j - n)));
            lemma_discovered_unique(v, dir, s2, i, p, j);
        }
    }
    assert(s2.len() > 0 ==> s2[0] == (root, 0usize)) by {
        assert(s2[0] == s[0]);
    }
    assert forall|i: int, j: int| 0 <= i < j < s2.len() implies #[trigger] s2[i].1 <= #[trigger] s2[j].1 by {
        if j < n {
            assert(s2[i] == s[i] && s2[j] == s[j]);
        } else if i < n {
            assert(s2[i] == s[i]);
            assert(s2[j] == (nbs[srcs[j - n]], h));
        } else {
            assert(s2[i] == (nbs[srcs[i - n]], h));
            assert(s2[j] == (nbs[srcs[j - n]], h));
        }
    }
    assert forall|j: int| 0 < j < s2.len() implies #[trigger] has_discoverer(v, dir, s2, j) by {
        if j < n {
            assert(s[j] == s[j]);
            assert(has_discoverer(v, dir, s, j));
            let i = choose|i: int| discovered_at(v, dir, s, i, j);
            lemma_discovered_prefix(v, dir, s, s2, i, j);
            assert(discovered_at(v, dir, s2, i, j));
        } else {
            assert(discovered_at(v, dir, s2, p, n + (j - n)));
            assert(n + (j - n) == j);
            assert(discovered_at(v, dir, s2, p, j));
        }
    }
    assert forall|i1: int, j: int, i2: int, k: int|
        j < k && #[trigger] discovered_at(v, dir, s2, i1, j) && #[trigger] discovered_at(v, dir, s2, i2, k) implies i1
        <= i2 by {
        if k < n {
            lemma_discovered_prefix(v, dir, s, s2, i1, j);
            lemma_discovered_prefix(v, dir, s, s2, i2, k);
        } else if j < n {
            lemma_discovered_prefix(v, dir, s, s2, i1, j);
        }
    }
    if dir == Direction::Upstream {
        assert forall|i: int, j: int, k: int|
            j < k && #[trigger] discovered_at(v, dir, s2, i, j) && #[trigger] discovered_at(v, dir, s2, i, k) implies s2[j].0
            == parent_lo(v[s2[i].0@]) && s2[k].0 == parent_hi(v[s2[i].0@]) by {
            if k < n {
                lemma_discovered_prefix(v, dir, s, s2, i, j);
                lemma_discovered_prefix(v, dir, s, s2, i, k);
                assert(s2[i] == s[i] && s2[j] == s[j] && s2[k] == s[k]);
            } else if j < n {
                lemma_discovered_prefix(v, dir, s, s2, i, j);
            } else {
                assert(i == p);
                assert(s2[p] == s[p]);
                let a = j - n;
                let c = k - n;
                assert(srcs[a] < srcs[c]);
                assert(nbs.len() == 2);
                assert(s2[j] == (nbs[srcs[a]], h));
                assert(s2[k] == (nbs[srcs[c]], h));
            }
        }
    }
    assert forall|i: int, j: int| #[trigger] discovered_at(v, dir, s2, i, j) implies i < p + 1 by {
        if j < n {
            lemma_discovered_prefix(v, dir, s, s2, i, j);
        }
    }
}

/// The same cone, listed ascending by bytes.
pub(crate) fn sort_cone(
    order: &Vec<(Distinction, usize)>,
    Ghost(v): Ghost<EngineView>,
    Ghost(dir): Ghost<Direction>,
    Ghost(root): Ghost<Distinction>,
    Ghost(b): Ghost<Boundary>,
) -> (r: Vec<(Distinction, usize)>)
    requires
        cone_members(v, dir, root, b, order@),
    ensures
        cone_listing(v, dir, root, b, r@),
{
    let mut sorted: Vec<(Distinction, usize)> = Vec::new();
    let ghost mut m: Map<[u8; 16], nat> = Map::empty();
    let mut i: usize = 0;
    proof {
        assert(m.dom() =~= Set::<[u8; 16]>::empty());
    }
    while i < order.len()
        invariant
            cone_members(v, dir, root, b, order@),
            0 <= i <= order@.len(),
            sorted_listing(sorted@, m),
            forall|k: [u8; 16]| #[trigger] m.contains_key(k) ==> exists|t: int|
                0 <= t < i && order@[t].0@ == k && m[k] == order@[t].1,
            forall|t: int| #![trigger order@[t]] 0 <= t < i ==> m.contains_key(order@[t].0@),
        decreases order@.len() - i,
    {
        let (d, h) = order[i];
        let (found, pos) = listing_find(&sorted, d, Ghost(m));
        if !found {
            listing_insert(&mut sorted, pos, d, h, Ghost(m));
            proof {
                let m2 = m.insert(d@, h as nat);
                assert forall|k: [u8; 16]| #[trigger] m2.contains_key(k) implies exists|t: int|
                    0 <= t < i + 1 && order@[t].0@ == k && m2[k] == order@[t].1 by {
                    if k == d@ {
                        assert(order@[i as int].0@ == k);
                    } else {
                        let t = choose|t: int| 0 <= t < i && order@[t].0@ == k && m[k] == order@[t].1;
                    }
                }
                m = m2;
            }
        }
        proof {
            assert forall|t: int| #![trigger order@[t]] 0 <= t < i + 1 implies m.contains_key(order@[t].0@) by {
                if t == i {
                    assert(order@[t].0 == d);
                }
            }
        }
        i = i + 1;
    }
    proof {
        assert forall|j: int| #![trigger sorted@[j]] 0 <= j < sorted@.len() implies cone_set(v, dir, root, b).contains(
            sorted@[j].0@,
        ) && first_at(v, dir, root@, sorted@[j].0@, sorted@[j].1 as nat) by {
            let k = sorted@[j].0@;
            assert(m.contains_key(k) && m[k] == sorted@[j].1);
            let t = choose|t: int| 0 <= t < i && order@[t].0@ == k && m[k] == order@[t].1;
            assert(order@[t] == order@[t]);
        }
        assert forall|k: [u8; 16]| #[trigger] cone_set(v, dir, root, b).contains(k) implies exists|j: int|
            0 <= j < sorted@.len() && sorted@[j].0@ == k by {
            let t = choose|t: int| 0 <= t < order@.len() && order@[t].0@ == k;
            assert(m.contains_key(order@[t].0@));
        }
    }
    sorted
}

/// Breadth-first traversal of the cone of `root`: every node within the
/// boundary, in visit order, with the hop count at which it is first
/// reached: the root first at hop 0, then each node's unvisited
/// neighbours in turn (upstream its lower parent, then its higher one;
/// downstream its children in the parentage snapshot's order). An
/// unregistered root yields an empty listing. Nodes at the boundary are
/// listed but not expanded.
pub(crate) fn traverse_cone(engine: &DistinctionEngine, root: Distinction, dir: Direction, b: Boundary) -> (r: Vec<
    (Distinction, usize),
>)
    requires
        engine.wf(),
    ensures
        cone_members(engine@, dir, root, b, r@),
        visit_order(engine@, dir, root, r@),
{
    let ghost v = engine@;
    if !engine.has(root) {
        let empty: Vec<(Distinction, usize)> = Vec::new();
        return empty;
    }
    proof {
        engine.lemma_wf_view();
    }
    let parentage = match dir {
        Direction::Upstream => Vec::new(),
        _ => engine.snapshot_parentage(),
    };
    let bounded = match b {
        Boundary::Hops(_) => true,
        Boundary::Saturated => false,
    };
    let max: usize = match b {
        Boundary::Hops(n) => n,
        Boundary::Saturated => 0,
    };
    let mut visited: Vec<(Distinction, usize)> = Vec::new();
    visited.push((root, 0));
    let ghost mut m: Map<[u8; 16], nat> = Map::empty().insert(root@, 0nat);
    let mut frontier: Vec<Distinction> = Vec::new();
    frontier.push(root);
    let mut level: usize = 0;
    let mut order: Vec<(Distinction, usize)> = Vec::new();
    order.push((root, 0));
    let mut fstart: usize = 0;
    proof {
        assert(order@[0] == (root, 0usize));
        assert(m.dom() =~= within(v, dir, root@, 0));
        assert(m.dom() =~= set![root@]);
        assert(m.dom() =~= Set::<[u8; 16]>::empty().insert(root@));
        assert(m.dom().len() == 1);
        assert(visited@[0].0@ == root@);
        assert forall|x: [u8; 16]| #[trigger] frontier_set(v, dir, root@, 0).contains(x) implies exists|j: int|
            0 <= j < frontier@.len() && frontier@[j]@ == x by {
            assert(frontier@[0]@ == x);
        }
        lemma_within_registered(v, dir, root@, 0);
    }
    while frontier.len() > 0 && (!bounded || level < max)
        invariant
            engine.wf(),
            v == engine@,
            view_wf(v),
            v.contains_key(root@),
            dir != Direction::Upstream ==> is_parentage_of(v, parentage@),
            bounded ==> b == Boundary::Hops(max),
            !bounded ==> b == Boundary::Saturated,
            bounded ==> level <= max,
            sorted_listing(visited@, m),
            m.dom() == within(v, dir, root@, level as nat),
            forall|k: [u8; 16]| #[trigger] m.contains_key(k) ==> first_at(v, dir, root@, k, m[k]),
            forall|j: int| #![trigger frontier@[j]] 0 <= j < frontier@.len() ==> within(v, dir, root@, level as nat).contains(
                frontier@[j]@,
            ),
            forall|x: [u8; 16]| #[trigger] frontier_set(v, dir, root@, level as nat).contains(x) ==> exists|j: int|
                0 <= j < frontier@.len() && frontier@[j]@ == x,
            frontier@.len() == 0 ==> within(v, dir, root@, (level + 1) as nat) == within(v, dir, root@, level as nat),
            visited@.len() >= level + (if frontier@.len() > 0 { 1int } else { 0int }),
            within(v, dir, root@, level as nat).subset_of(v.dom()),
            order@.len() == visited@.len(),
            forall|t: int| #![trigger order@[t]] 0 <= t < order@.len() ==> m.contains_key(order@[t].0@) && m[order@[t].0@]
                == order@[t].1,
            forall|k: [u8; 16]| #[trigger] m.contains_key(k) ==> exists|t: int| 0 <= t < order@.len() && order@[t].0@ == k,
            forall|a: int, c: int| 0 <= a < c < order@.len() ==> #[trigger] order@[a].0@ != #[trigger] order@[c].0@,
            fstart <= order@.len(),
            frontier@.len() == order@.len() - fstart,
            forall|j: int| #![trigger frontier@[j]] 0 <= j < frontier@.len() ==> frontier@[j] == order@[fstart + j].0,
            forall|t: int| #![trigger order@[t]] 0 <= t < fstart ==> order@[t].1 < level,
            forall|t: int| #![trigger order@[t]] fstart <= t < order@.len() ==> order@[t].1 == level,
            visit_order(v, dir, root, order@),
            forall|i: int, j: int| #[trigger] discovered_at(v, dir, order@, i, j) ==> i < fstart,
        decreases 2 * (v.dom().len() - visited@.len()) + (if frontier@.len() > 0 { 1int } else { 0int }),
    {
        proof {
            vstd::set_lib::lemma_len_subset(m.dom(), v.dom());
        }
        let ghost w = within(v, dir, root@, level as nat);
        let ghost m0 = m;
        let ghost vis0 = visited@.len();
        let ghost order0 = order@;
        let vl = visited.len();
        proof {
            assert forall|t: int| 0 <= t < fstart implies level > 0 && #[trigger] within(
                v,
                dir,
                root@,
                (level - 1) as nat,
            ).contains(order@[t].0@) by {
                let k = order@[t].0@;
                assert(m.contains_key(k) && m[k] == order@[t].1);
                assert(first_at(v, dir, root@, k, m[k]));
                lemma_within_mono(v, dir, root@, m[k], (level - 1) as nat);
            }
        }
        assert(level + 1 <= vl);
        let h = level + 1;
        let mut next: Vec<Distinction> = Vec::new();
        let mut i: usize = 0;
        while i < frontier.len()
            invariant
                engine.wf(),
                v == engine@,
                dir != Direction::Upstream ==> is_parentage_of(v, parentage@),
                h == level + 1,
                0 <= i <= frontier@.len(),
                w == within(v, dir, root@, level as nat),
                m0.dom() == w,
                sorted_listing(visited@, m),
                m.dom() == w.union(reach_upto(v, dir, frontier@, i as int)),
                forall|k: [u8; 16]| #[trigger] m0.contains_key(k) ==> m[k] == m0[k],
                forall|k: [u8; 16]| #[trigger] m.contains_key(k) && !w.contains(k) ==> m[k] == h,
                vis0 <= visited@.len(),
                next@.len() == visited@.len() - vis0,
                forall|j: int| #![trigger next@[j]] 0 <= j < next@.len() ==> m.contains_key(next@[j]@) && !w.contains(
                    next@[j]@,
                ),
                forall|k: [u8; 16]| #[trigger] m.contains_key(k) && !w.contains(k) ==> exists|j: int|
                    0 <= j < next@.len() && next@[j]@ == k,
                forall|a: int, c: int| 0 <= a < c < next@.len() ==> #[trigger] next@[a]@ != #[trigger] next@[c]@,
                vis0 == order0.len(),
                fstart + frontier@.len() == order0.len(),
                forall|j: int| #![trigger frontier@[j]] 0 <= j < frontier@.len() ==> frontier@[j] == order0[fstart + j].0,
                forall|t: int| 0 <= t < fstart ==> level > 0 && #[trigger] within(v, dir, root@, (level - 1) as nat).contains(
                    order0[t].0@,
                ),
                forall|t: int| #![trigger order0[t]] 0 <= t < order0.len() ==> order0[t].1 <= level && m0.contains_key(
                    order0[t].0@,
                ) && m0[order0[t].0@] == order0[t].1,
                forall|k: [u8; 16]| #[trigger] m0.contains_key(k) ==> exists|t: int| 0 <= t < order0.len() && order0[t].0@ == k,
                forall|a: int, c: int| 0 <= a < c < order0.len() ==> #[trigger] order0[a].0@ != #[trigger] order0[c].0@,
                order@.len() == order0.len() + next@.len(),
                forall|t: int| #![trigger order@[t]] 0 <= t < order0.len() ==> order@[t] == order0[t],
                forall|a: int| #![trigger next@[a]] 0 <= a < next@.len() ==> order@[order0.len() + a] == (next@[a], h),
                visit_order(v, dir, root, order@),
                forall|ii: int, j: int| #[trigger] discovered_at(v, dir, order@, ii, j) ==> ii < fstart + i,
                forall|x: [u8; 16]| #[trigger] w.contains(x) ==> v.contains_key(x),
            decreases frontier@.len() - i,
        {
            let x = frontier[i];
            let nbs = neighbors(engine, dir, &parentage, x);
            let ghost mprev = m;
            let ghost nprev = next@;
            let ghost order_before = order@;
            let nlen0 = next.len();
            let (Ghost(m2), Ghost(pos2)) = visit_all(&mut visited, &mut next, &nbs, h, Ghost(m));
            let mut a: usize = nlen0;
            while a < next.len()
                invariant
                    nprev.len() <= a <= next@.len(),
                    order@.len() == order_before.len() + (a - nprev.len()),
                    order_before.len() == order0.len() + nprev.len(),
                    forall|t: int| #![trigger order@[t]] 0 <= t < order_before.len() ==> order@[t] == order_before[t],
                    forall|c: int| #![trigger order@[order_before.len() + c]] 0 <= c < a - nprev.len() ==> order@[
                        order_before.len() + c] == (next@[nprev.len() + c], h),
                decreases next@.len() - a,
            {
                order.push((next[a], h));
                a = a + 1;
            }
            proof {
                let nb = order_before.len();
                let p = fstart + i;
                assert(order_before[p] == order0[p]);
                assert(order0[p].0 == x);
                assert forall|c: int, t: int| 0 <= c < pos2.len() && 0 <= t < p implies !cone_step(
                    v,
                    dir,
                    #[trigger] order_before[t].0@,
                    #[trigger] order@[nb + c].0@,
                ) by {
                    assert(order@[nb + c] == (next@[nprev.len() + c], h));
                    let y = next@[nprev.len() + c]@;
                    assert(!mprev.contains_key(y));
                    assert(order_before[t] == order0[t]);
                    if cone_step(v, dir, order0[t].0@, y) {
                        if t < fstart {
                            let w0 = within(v, dir, root@, (level - 1) as nat);
                            assert(w0.contains(order0[t].0@));
                            assert(step_set(v, dir, w0).contains(y));
                            assert(within(v, dir, root@, level as nat) == w0.union(step_set(v, dir, w0)));
                            assert(w.contains(y));
                        } else {
                            assert(frontier@[t - fstart] == order0[t].0);
                            assert(cone_step(v, dir, frontier@[t - fstart]@, y));
                            assert(reach_upto(v, dir, frontier@, i as int).contains(y));
                        }
                    }
                }
                assert forall|t: int| #![trigger order_before[t]] 0 <= t < order_before.len() implies order_before[t].1
                    <= h by {
                    if t < order0.len() {
                        assert(order_before[t] == order0[t]);
                    } else {
                        assert(order_before[t] == (nprev[t - order0.len()], h));
                    }
                }
                assert forall|y: int| #![trigger nbs@[y]] 0 <= y < nbs@.len() implies cone_step(
                    v,
                    dir,
                    order_before[p].0@,
                    nbs@[y]@,
                ) by {}
                assert forall|c: int| #![trigger pos2[c]] 0 <= c < pos2.len() implies 0 <= pos2[c] < nbs@.len()
                    && order@[nb + c] == (nbs@[pos2[c]], h) by {
                    assert(order@[nb + c] == (next@[nprev.len() + c], h));
                }
                assert(order_before[p].0 == x);
                assert(v.contains_key(x@)) by {
                    assert(w.contains(frontier@[i as int]@));
                }
                lemma_visit_extend(v, dir, root, order_before, order@, p, nbs@, pos2, h);
                assert forall|c: int| #![trigger next@[c]] 0 <= c < next@.len() implies order@[order0.len() + c] == (
                    next@[c],
                    h,
                ) by {
                    if c < nprev.len() {
                        assert(next@[c] == nprev[c]);
                        assert(order@[order0.len() + c] == order_before[order0.len() + c]);
                    } else {
                        assert(order@[nb + (c - nprev.len())] == (next@[nprev.len() + (c - nprev.len())], h));
                    }
                }
                assert forall|t: int| #![trigger order@[t]] 0 <= t < order0.len() implies order@[t] == order0[t] by {
                    assert(order@[t] == order_before[t]);
                }
            }
            proof {
                m = m2;
                assert forall|k: [u8; 16]| #[trigger] m0.contains_key(k) implies m[k] == m0[k] by {
                    assert(mprev.contains_key(k));
                }
                assert(listed_upto(nbs@, nbs@.len() as int) =~= Set::new(
                    |y: [u8; 16]| cone_step(v, dir, x@, y),
                )) by {
                    assert forall|y: [u8; 16]| #[trigger] listed_upto(nbs@, nbs@.len() as int).contains(y) implies cone_step(
                        v,
                        dir,
                        x@,
                        y,
                    ) by {
                        let t = choose|t: int| 0 <= t < nbs@.len() && #[trigger] nbs@[t]@ == y;
                        assert(cone_step(v, dir, x@, nbs@[t]@));
                    }
                    assert forall|y: [u8; 16]| cone_step(v, dir, x@, y) implies #[trigger] listed_upto(
                        nbs@,
                        nbs@.len() as int,
                    ).contains(y) by {
                        let t = choose|t: int| 0 <= t < nbs@.len() && nbs@[t]@ == y;
                        assert(nbs@[t]@ == y);
                    }
                }
                assert(reach_upto(v, dir, frontier@, i + 1) =~= reach_upto(v, dir, frontier@, i as int).union(
                    Set::new(|y: [u8; 16]| cone_step(v, dir, x@, y)),
                )) by {
                    assert forall|y: [u8; 16]| #[trigger] reach_upto(v, dir, frontier@, i + 1).contains(y) implies reach_upto(
                        v,
                        dir,
                        frontier@,
                        i as int,
                    ).contains(y) || cone_step(v, dir, x@, y) by {
                        let j = choose|j: int| 0 <= j < i + 1 && #[trigger] cone_step(v, dir, frontier@[j]@, y);
                        if j < i {
                            assert(cone_step(v, dir, frontier@[j]@, y));
                        }
                    }
                    assert forall|y: [u8; 16]| cone_step(v, dir, x@, y) implies #[trigger] reach_upto(
                        v,
                        dir,
                        frontier@,
                        i + 1,
                    ).contains(y) by {
                        assert(cone_step(v, dir, frontier@[i as int]@, y));
                    }
                    assert forall|y: [u8; 16]| #[trigger] reach_upto(v, dir, frontier@, i as int).contains(y) implies reach_upto(
                        v,
                        dir,
                        frontier@,
                        i + 1,
                    ).contains(y) by {
                        let j = choose|j: int| 0 <= j < i && #[trigger] cone_step(v, dir, frontier@[j]@, y);
                        assert(cone_step(v, dir, frontier@[j]@, y));
                    }
                }
                assert(m.dom() =~= w.union(reach_upto(v, dir, frontier@, i + 1)));
                assert forall|k: [u8; 16]| #[trigger] m.contains_key(k) && !w.contains(k) implies m[k] == h by {
                    if mprev.contains_key(k) {
                        assert(m2[k] == mprev[k]);
                    }
                }
                assert forall|j: int| #![trigger next@[j]] 0 <= j < next@.len() implies m.contains_key(next@[j]@)
                    && !w.contains(next@[j]@) by {
                    if j < nprev.len() {
                        assert(next@[j] == nprev[j]);
                    }
                }
                assert forall|k: [u8; 16]| #[trigger] m.contains_key(k) && !w.contains(k) implies exists|j: int|
                    0 <= j < next@.len() && next@[j]@ == k by {
                    if mprev.contains_key(k) {
                        assert(mprev.contains_key(k) && !w.contains(k));
                        let j = choose|j: int| 0 <= j < nprev.len() && nprev[j]@ == k;
                        assert(next@[j] == nprev[j]);
                        assert(0 <= j < next@.len() && next@[j]@ == k);
                    } else {
                        assert(m2.contains_key(k) && !mprev.contains_key(k));
                    }
                }
            }
            i = i + 1;
        }
        proof {
            let w1 = within(v, dir, root@, (level + 1) as nat);
            assert(w1 == w.union(step_set(v, dir, w)));
            assert(m.dom() =~= w1) by {
                assert forall|y: [u8; 16]| #[trigger] reach_upto(v, dir, frontier@, frontier@.len() as int).contains(y) implies step_set(
                    v,
                    dir,
                    w,
                ).contains(y) by {
                    let j = choose|j: int| 0 <= j < frontier@.len() && #[trigger] cone_step(v, dir, frontier@[j]@, y);
                    assert(w.contains(frontier@[j]@));
                }
                assert forall|y: [u8; 16]| #[trigger] step_set(v, dir, w).contains(y) && !w.contains(y) implies reach_upto(
                    v,
                    dir,
                    frontier@,
                    frontier@.len() as int,
                ).contains(y) by {
                    lemma_new_from_frontier(v, dir, root@, level as nat, y);
                    let x = choose|x: [u8; 16]| #[trigger] frontier_set(v, dir, root@, level as nat).contains(x)
                        && cone_step(v, dir, x, y);
                    let j = choose|j: int| 0 <= j < frontier@.len() && frontier@[j]@ == x;
                    assert(cone_step(v, dir, frontier@[j]@, y));
                }
            }
            assert forall|k: [u8; 16]| #[trigger] m.contains_key(k) implies first_at(v, dir, root@, k, m[k]) by {
                if !w.contains(k) {
                    assert(m[k] == level + 1);
                }
            }
            assert forall|x: [u8; 16]| #[trigger] frontier_set(v, dir, root@, (level + 1) as nat).contains(x) implies exists|j: int|
                0 <= j < next@.len() && next@[j]@ == x by {
                assert(m.contains_key(x) && !w.contains(x));
            }
            if next@.len() == 0 {
                assert(w1 =~= w) by {
                    assert forall|k: [u8; 16]| w1.contains(k) implies w.contains(k) by {
                        if !w.contains(k) {
                            assert(m.contains_key(k) && !w.contains(k));
                            let j = choose|j: int| 0 <= j < next@.len() && next@[j]@ == k;
                        }
                    }
                }
                lemma_within_next_eq(v, dir, root@, (level + 1) as nat, level as nat);
            }
            lemma_within_registered(v, dir, root@, (level + 1) as nat);
            vstd::set_lib::lemma_len_subset(m.dom(), v.dom());
            assert(visited@.len() == vis0 + next@.len());
        }
        proof {
            let n0 = order0.len();
            assert forall|t: int| #![trigger order@[t]] 0 <= t < order@.len() implies m.contains_key(order@[t].0@)
                && m[order@[t].0@] == order@[t].1 by {
                if t < n0 {
                    assert(order@[t] == order0[t]);
                    assert(m0.contains_key(order0[t].0@));
                } else {
                    assert(order@[n0 + (t - n0)] == (next@[t - n0], h));
                    assert(m.contains_key(next@[t - n0]@) && !w.contains(next@[t - n0]@));
                }
            }
            assert forall|k: [u8; 16]| #[trigger] m.contains_key(k) implies exists|t: int| 0 <= t < order@.len()
                && order@[t].0@ == k by {
                if w.contains(k) {
                    let t = choose|t: int| 0 <= t < n0 && order0[t].0@ == k;
                    assert(order@[t] == order0[t]);
                } else {
                    let j = choose|j: int| 0 <= j < next@.len() && next@[j]@ == k;
                    assert(order@[n0 + j] == (next@[j], h));
                }
            }
            assert forall|a: int, c: int| 0 <= a < c < order@.len() implies #[trigger] order@[a].0@
                != #[trigger] order@[c].0@ by {
                if c < n0 {
                    assert(order@[a] == order0[a] && order@[c] == order0[c]);
                } else if a < n0 {
                    assert(order@[a] == order0[a]);
                    assert(m0.contains_key(order0[a].0@));
                    assert(order@[n0 + (c - n0)] == (next@[c - n0], h));
                    assert(!w.contains(next@[c - n0]@));
                } else {
                    assert(order@[n0 + (a - n0)] == (next@[a - n0], h));
                    assert(order@[n0 + (c - n0)] == (next@[c - n0], h));
                }
            }
            assert forall|t: int| #![trigger order@[t]] vl <= t < order@.len() implies order@[t].1 == h by {
                assert(order@[n0 + (t - n0)] == (next@[t - n0], h));
            }
            assert forall|t: int| #![trigger order@[t]] 0 <= t < vl implies order@[t].1 < h by {
                assert(order@[t] == order0[t]);
            }
            assert forall|j: int| #![trigger next@[j]] 0 <= j < next@.len() implies next@[j] == order@[vl + j].0 by {
                assert(order@[n0 + j] == (next@[j], h));
            }
        }
        frontier = next;
        level = h;
        fstart = vl;
    }
    proof {
        let kk = bound_hops(v, b);
        vstd::set_lib::lemma_len_subset(m.dom(), v.dom());
        if !(bounded && level >= max) {
            lemma_within_stable(v, dir, root@, level as nat, kk);
        }
        assert(cone_set(v, dir, root, b) == m.dom());
    }
    order
}

} // verus!
