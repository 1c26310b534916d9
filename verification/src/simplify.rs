//! Ramer-Douglas-Peucker simplification as a verified decision core.
//!
//! The algorithm repeatedly examines an index range `(first, last)` of the
//! trajectory whose endpoints are already kept, finds the interior point
//! that deviates most from the chord between the endpoints, and either keeps
//! it and splits the range, or drops the whole interior when even the
//! largest deviation is within tolerance.
//!
//! Measuring a deviation takes floating-point geometry (an equirectangular
//! projection and a point-to-segment distance), which cannot live here, so
//! the recursion is turned inside out: [`Simplifier`] holds the keep markers
//! and an explicit work stack of ranges, and the caller feeds each pending
//! range's measured deviations, scaled to integral micrometers, into
//! [`Simplifier::resolve`]. Everything decided from those numbers — the
//! first-wins maximum, the tolerance comparison, the split, the final
//! subsequence — is verified. A ghost record of every dropped point's chord
//! and deviation supports the tolerance-bound law.
use vstd::prelude::*;
use vstd::set_lib::lemma_len_subset;

use crate::point::IntPoint;

verus! {

/// The ghost view of a [`Simplifier`]: the tolerance, the keep marker per
/// input index, the pending ranges, and for every index already dropped the
/// chord it was measured against together with the deviation reported for
/// it.
pub ghost struct SimplifierModel {
    pub eps: u64,
    pub keep: Seq<bool>,
    pub stack: Seq<(int, int)>,
    pub removed: Map<int, (int, int, u64)>,
}

/// Two ranges have no common interior index.
pub open spec fn ranges_disjoint(r1: (int, int), r2: (int, int)) -> bool {
    r1.1 <= r2.0 + 1 || r2.1 <= r1.0 + 1
}

/// A pending range is in bounds, has at least one interior index, its
/// endpoints are kept, and its interior is still entirely unkept.
pub open spec fn range_wf(s: SimplifierModel, k: int) -> bool {
    let (a, b) = s.stack[k];
    &&& 0 <= a
    &&& a + 1 < b
    &&& b < s.keep.len()
    &&& s.keep[a]
    &&& s.keep[b]
    &&& forall|j: int| a < j < b ==> !(#[trigger] s.keep[j])
}

/// A dropped index sits strictly inside its recorded chord, both chord
/// endpoints are kept, nothing between them is kept, the recorded deviation
/// is within tolerance, and no pending range can reach inside the chord.
pub open spec fn removed_wf(s: SimplifierModel, i: int) -> bool {
    let (lo, hi, d) = s.removed[i];
    &&& 0 <= lo < i < hi < s.keep.len()
    &&& s.keep[lo]
    &&& s.keep[hi]
    &&& !s.keep[i]
    &&& d <= s.eps
    &&& forall|j: int| lo < j < hi ==> !(#[trigger] s.keep[j])
    &&& forall|k: int| 0 <= k < s.stack.len() ==> ranges_disjoint((lo, hi), #[trigger] s.stack[k])
}

/// How many interior indices all pending ranges hold together. Every
/// [`Simplifier::resolve`] call strictly decreases it, so a loop that
/// resolves until no range is pending ends after at most as many steps as
/// the trajectory has interior points: the explicit work stack replaces the
/// usual unbounded recursion.
pub open spec fn stack_interior(st: Seq<(int, int)>) -> int
    decreases st.len(),
{
    if st.len() == 0 {
        0
    } else {
        stack_interior(st.drop_last()) + (st.last().1 - st.last().0 - 1)
    }
}

/// Under the simplifier's invariant the pending interior count is not
/// negative: with the strict decrease per step, a driver loop terminates.
pub proof fn lemma_stack_interior_nonneg(s: SimplifierModel)
    requires
        forall|k: int| 0 <= k < s.stack.len() ==> #[trigger] range_wf(s, k),
    ensures
        stack_interior(s.stack) >= 0,
{
    lemma_stack_interior_nonneg_rec(s, s.stack.len() as int);
    assert(s.stack.take(s.stack.len() as int) =~= s.stack);
}

proof fn lemma_stack_interior_nonneg_rec(s: SimplifierModel, j: int)
    requires
        0 <= j <= s.stack.len(),
        forall|k: int| 0 <= k < s.stack.len() ==> #[trigger] range_wf(s, k),
    ensures
        stack_interior(s.stack.take(j)) >= 0,
    decreases j,
{
    if j > 0 {
        lemma_stack_interior_nonneg_rec(s, j - 1);
        assert(s.stack.take(j).drop_last() =~= s.stack.take(j - 1));
        assert(s.stack.take(j).last() == s.stack[j - 1]);
        assert(range_wf(s, j - 1));
    } else {
        assert(s.stack.take(0) =~= Seq::<(int, int)>::empty());
    }
}

proof fn lemma_stack_interior_push(st: Seq<(int, int)>, r: (int, int))
    ensures
        stack_interior(st.push(r)) == stack_interior(st) + (r.1 - r.0 - 1),
{
    assert(st.push(r).drop_last() =~= st);
}

/// Some pending range has `i` strictly inside it.
pub open spec fn in_pending_range(s: SimplifierModel, i: int) -> bool {
    exists|k: int| 0 <= k < s.stack.len() && (#[trigger] s.stack[k]).0 < i < s.stack[k].1
}

/// The simplifier's invariant: the two trajectory endpoints are kept,
/// pending ranges are well formed and pairwise interior-disjoint, every
/// unkept interior index is either already dropped or still pending, and
/// every dropped index carries a well-formed record.
pub open spec fn simplifier_inv(s: SimplifierModel) -> bool {
    let n = s.keep.len() as int;
    &&& n >= 2
    &&& s.keep[0]
    &&& s.keep[n - 1]
    &&& forall|k: int| 0 <= k < s.stack.len() ==> #[trigger] range_wf(s, k)
    &&& forall|k1: int, k2: int|
        0 <= k1 < s.stack.len() && 0 <= k2 < s.stack.len() && k1 != k2 ==> ranges_disjoint(
            #[trigger] s.stack[k1],
            #[trigger] s.stack[k2],
        )
    &&& forall|i: int|
        0 < i < n - 1 && !(#[trigger] s.keep[i]) ==> s.removed.dom().contains(i)
            || in_pending_range(s, i)
    &&& forall|i: int| #[trigger] s.removed.dom().contains(i) ==> removed_wf(s, i)
}

/// The index of the largest value in `s`, the earliest winning a tie: a
/// later value replaces the running maximum only when strictly greater.
pub open spec fn first_max_index(s: Seq<u64>) -> int
    recommends
        s.len() > 0,
    decreases s.len(),
{
    if s.len() <= 1 {
        0
    } else {
        let r = first_max_index(s.drop_last());
        if s.last() > s[r] {
            s.len() - 1
        } else {
            r
        }
    }
}

pub proof fn lemma_first_max_index(s: Seq<u64>)
    requires
        s.len() > 0,
    ensures
        0 <= first_max_index(s) < s.len(),
        forall|j: int| 0 <= j < s.len() ==> #[trigger] s[j] <= s[first_max_index(s)],
        forall|j: int| 0 <= j < first_max_index(s) ==> #[trigger] s[j] < s[first_max_index(s)],
    decreases s.len(),
{
    if s.len() > 1 {
        lemma_first_max_index(s.drop_last());
        assert forall|j: int| 0 <= j < s.len() - 1 implies s[j] == s.drop_last()[j] by {}
    }
}

/// Finds the first-wins maximum of a deviation list, exactly as the
/// recursive rule scans it: ascending, replacing only on a strictly greater
/// value.
pub fn first_max(devs: &Vec<u64>) -> (r: usize)
    requires
        devs@.len() > 0,
    ensures
        r as int == first_max_index(devs@),
{
    let mut r: usize = 0;
    let mut i: usize = 1;
    while i < devs.len()
        invariant
            1 <= i <= devs@.len(),
            r < i,
            r as int == first_max_index(devs@.take(i as int)),
        decreases devs@.len() - i,
    {
        proof {
            let t1 = devs@.take(i + 1);
            assert(t1.drop_last() =~= devs@.take(i as int));
            assert(t1.last() == devs@[i as int]);
        }
        if devs[i] > devs[r] {
            r = i;
        }
        i = i + 1;
    }
    proof {
        assert(devs@.take(devs@.len() as int) =~= devs@);
    }
    r
}

/// The verified core of the simplifier; see the module documentation for
/// how a caller drives it.
pub struct Simplifier {
    eps_um: u64,
    keep: Vec<bool>,
    stack: Vec<(usize, usize)>,
    removed: Ghost<Map<int, (int, int, u64)>>,
}

impl View for Simplifier {
    type V = SimplifierModel;

    closed spec fn view(&self) -> SimplifierModel {
        SimplifierModel {
            eps: self.eps_um,
            keep: self.keep@,
            stack: Seq::new(
                self.stack@.len(),
                |k: int| (self.stack@[k].0 as int, self.stack@[k].1 as int),
            ),
            removed: self.removed@,
        }
    }
}

impl Simplifier {
    /// Starts a simplification of a trajectory of `n` points with the given
    /// tolerance in micrometers: the two endpoints are kept from the start,
    /// and with anything in between, the whole index range is pending.
    pub fn new(n: usize, eps_um: u64) -> (s: Simplifier)
        requires
            n >= 2,
        ensures
            simplifier_inv(s@),
            s@.eps == eps_um,
            s@.keep.len() == n,
            forall|i: int| 0 <= i < n ==> (s@.keep[i] <==> (i == 0 || i == n - 1)),
            s@.removed == Map::<int, (int, int, u64)>::empty(),
            n > 2 ==> s@.stack =~= seq![(0int, n - 1 as int)],
            n == 2 ==> s@.stack =~= Seq::<(int, int)>::empty(),
    {
        let mut keep: Vec<bool> = Vec::new();
        let mut i: usize = 0;
        while i < n
            invariant
                i <= n,
                keep@.len() == i,
                forall|j: int| 0 <= j < i ==> !keep@[j],
            decreases n - i,
        {
            keep.push(false);
            i = i + 1;
        }
        keep[0] = true;
        keep[n - 1] = true;
        let mut stack: Vec<(usize, usize)> = Vec::new();
        if n > 2 {
            stack.push((0, n - 1));
        }
        let s = Simplifier { eps_um, keep, stack, removed: Ghost(Map::empty()) };
        proof {
            let m = s@;
            assert(forall|i: int| !m.removed.dom().contains(i));
            if n > 2 {
                assert(m.stack =~= seq![(0int, n - 1 as int)]);
                assert(m.stack[0] == (0int, (n - 1) as int));
                assert(range_wf(m, 0));
                assert forall|i: int| 0 < i < n - 1 && !(m.keep[i]) implies m.removed.dom().contains(
                    i,
                ) || in_pending_range(m, i) by {
                    assert((m.stack[0]).0 < i < m.stack[0].1);
                }
            } else {
                assert(m.stack =~= Seq::<(int, int)>::empty());
            }
        }
        s
    }

    /// The range whose deviations are wanted next, if any work is pending.
    pub fn next_range(&self) -> (r: Option<(usize, usize)>)
        ensures
            r is Some <==> self@.stack.len() > 0,
            r matches Some((f, l)) ==> self@.stack.last() == (f as int, l as int),
    {
        if self.stack.len() == 0 {
            None
        } else {
            Some(self.stack[self.stack.len() - 1])
        }
    }

    /// True once no range is pending and the keep markers are final.
    pub fn is_done(&self) -> (r: bool)
        ensures
            r <==> self@.stack.len() == 0,
    {
        self.stack.len() == 0
    }

    /// Resolves the pending range on top of the work stack from the
    /// deviations measured for its interior points: `devs[k]` is the
    /// deviation of point `first + 1 + k` from the chord between the range's
    /// endpoints, in micrometers. The interior point with the largest
    /// deviation — the earliest on a tie — is kept when it deviates by more
    /// than the tolerance, and the two ranges it splits off are pushed where
    /// they still have an interior; otherwise the whole interior is dropped
    /// and recorded against this chord.
    pub fn resolve(&mut self, devs: &Vec<u64>)
        requires
            simplifier_inv(old(self)@),
            old(self)@.stack.len() > 0,
            devs@.len() == old(self)@.stack.last().1 - old(self)@.stack.last().0 - 1,
        ensures
            simplifier_inv(final(self)@),
            final(self)@.eps == old(self)@.eps,
            final(self)@.keep.len() == old(self)@.keep.len(),
            forall|i: int|
                0 <= i < old(self)@.keep.len() && old(self)@.keep[i] ==> #[trigger] final(self)@.keep[i],
            ({
                let (f, l) = old(self)@.stack.last();
                let m = first_max_index(devs@);
                let idx = f + 1 + m;
                if devs@[m] > old(self)@.eps {
                    &&& final(self)@.keep == old(self)@.keep.update(idx, true)
                    &&& final(self)@.removed == old(self)@.removed
                    &&& final(self)@.stack == old(self)@.stack.drop_last() + (if idx > f + 1 {
                        seq![(f, idx)]
                    } else {
                        Seq::<(int, int)>::empty()
                    }) + (if idx + 1 < l {
                        seq![(idx, l)]
                    } else {
                        Seq::<(int, int)>::empty()
                    })
                } else {
                    &&& final(self)@.keep == old(self)@.keep
                    &&& final(self)@.stack == old(self)@.stack.drop_last()
                    &&& final(self)@.removed == Map::new(
                        |i: int| old(self)@.removed.dom().contains(i) || f < i < l,
                        |i: int|
                            if f < i < l {
                                (f, l, devs@[i - f - 1])
                            } else {
                                old(self)@.removed[i]
                            },
                    )
                }
            }),
            stack_interior(final(self)@.stack) < stack_interior(old(self)@.stack),
    {
        let ghost s_old = self@;
        let top = self.stack.pop().unwrap();
        let (f, l) = top;
        proof {
            assert(s_old.stack.last() == (f as int, l as int));
            assert(range_wf(s_old, s_old.stack.len() - 1));
            assert(self@.stack =~= s_old.stack.drop_last());
            lemma_first_max_index(devs@);
        }
        let m = first_max(devs);
        let md = devs[m];
        if md > self.eps_um {
            let idx = f + 1 + m;
            self.keep[idx] = true;
            if idx > f + 1 {
                self.stack.push((f, idx));
            }
            if idx + 1 < l {
                self.stack.push((idx, l));
            }
            proof {
                let left: Seq<(int, int)> = if idx > f + 1 {
                    seq![(f as int, idx as int)]
                } else {
                    Seq::empty()
                };
                let right: Seq<(int, int)> = if idx + 1 < l {
                    seq![(idx as int, l as int)]
                } else {
                    Seq::empty()
                };
                assert(self@.stack =~= s_old.stack.drop_last() + left + right);
                assert(self@.keep =~= s_old.keep.update(idx as int, true));
                lemma_inv_split(s_old, self@, f as int, l as int, idx as int);
                let base = s_old.stack.drop_last();
                assert(s_old.stack =~= base.push((f as int, l as int)));
                lemma_stack_interior_push(base, (f as int, l as int));
                if idx > f + 1 && idx + 1 < l {
                    assert(self@.stack =~= base.push((f as int, idx as int)).push(
                        (idx as int, l as int),
                    ));
                    lemma_stack_interior_push(base, (f as int, idx as int));
                    lemma_stack_interior_push(
                        base.push((f as int, idx as int)),
                        (idx as int, l as int),
                    );
                } else if idx > f + 1 {
                    assert(self@.stack =~= base.push((f as int, idx as int)));
                    lemma_stack_interior_push(base, (f as int, idx as int));
                } else if idx + 1 < l {
                    assert(self@.stack =~= base.push((idx as int, l as int)));
                    lemma_stack_interior_push(base, (idx as int, l as int));
                }
            }
        } else {
            proof {
                let fi = f as int;
                let li = l as int;
                self.removed@ = Map::new(
                    |i: int| s_old.removed.dom().contains(i) || fi < i < li,
                    |i: int|
                        if fi < i < li {
                            (fi, li, devs@[i - fi - 1])
                        } else {
                            s_old.removed[i]
                        },
                );
                lemma_inv_collapse(s_old, self@, fi, li, devs@);
                assert(s_old.stack =~= self@.stack.push((fi, li)));
                lemma_stack_interior_push(self@.stack, (fi, li));
            }
        }
    }
}

/// Splitting the top range at a kept interior index preserves the
/// simplifier's invariant.
proof fn lemma_inv_split(s: SimplifierModel, t: SimplifierModel, f: int, l: int, idx: int)
    requires
        simplifier_inv(s),
        s.stack.len() > 0,
        s.stack.last() == (f, l),
        f < idx < l,
        t.eps == s.eps,
        t.keep == s.keep.update(idx, true),
        t.removed == s.removed,
        t.stack == s.stack.drop_last() + (if idx > f + 1 {
            seq![(f, idx)]
        } else {
            Seq::<(int, int)>::empty()
        }) + (if idx + 1 < l {
            seq![(idx, l)]
        } else {
            Seq::<(int, int)>::empty()
        }),
    ensures
        simplifier_inv(t),
{
    let n = s.keep.len() as int;
    let last = s.stack.len() - 1;
    assert(range_wf(s, last));
    let base = s.stack.drop_last();
    let left: Seq<(int, int)> = if idx > f + 1 { seq![(f, idx)] } else { Seq::empty() };
    let right: Seq<(int, int)> = if idx + 1 < l { seq![(idx, l)] } else { Seq::empty() };
    // every new stack entry is an old non-top entry or one of the halves
    assert forall|k: int| 0 <= k < t.stack.len() implies (
        (0 <= k < base.len() && t.stack[k] == s.stack[k]) || t.stack[k] == (f, idx) || t.stack[k]
            == (idx, l)) by {
        if k >= base.len() + left.len() {
            assert(t.stack[k] == right[k - base.len() - left.len()]);
        } else if k >= base.len() {
            assert(t.stack[k] == left[k - base.len()]);
        }
    }
    // the top range was interior-disjoint from everything else, so idx, an
    // interior index of it, is touched by no other old range and no chord
    assert forall|k: int| 0 <= k < base.len() implies ranges_disjoint(
        (f, l),
        #[trigger] s.stack[k],
    ) by {
        assert(ranges_disjoint(s.stack[last], s.stack[k]));
    }
    assert(t.keep[0]);
    assert(t.keep[n - 1]);
    assert forall|k: int| 0 <= k < t.stack.len() implies #[trigger] range_wf(t, k) by {
        if 0 <= k < base.len() && t.stack[k] == s.stack[k] {
            assert(range_wf(s, k));
            let (a, b) = s.stack[k];
            assert forall|j: int| a < j < b implies !(#[trigger] t.keep[j]) by {
                assert(ranges_disjoint((f, l), s.stack[k]));
            }
        } else {
            assert forall|j: int| f < j < l && j != idx implies !(#[trigger] t.keep[j]) by {}
        }
    }
    assert forall|k1: int, k2: int|
        0 <= k1 < t.stack.len() && 0 <= k2 < t.stack.len() && k1 != k2 implies ranges_disjoint(
        #[trigger] t.stack[k1],
        #[trigger] t.stack[k2],
    ) by {
        if k1 >= base.len() && k2 >= base.len() {
            assert(t.stack[k1] != t.stack[k2]);
        }
    }
    assert forall|i: int|
        0 < i < n - 1 && !(#[trigger] t.keep[i]) implies t.removed.dom().contains(i)
            || in_pending_range(t, i) by {
        assert(!s.keep[i]);
        if !s.removed.dom().contains(i) {
            let k = choose|k: int|
                0 <= k < s.stack.len() && (#[trigger] s.stack[k]).0 < i < s.stack[k].1;
            if k < base.len() {
                assert(t.stack[k] == s.stack[k]);
                assert(in_pending_range(t, i));
            } else {
                assert(f < i < l && i != idx);
                if i < idx {
                    let ki: int = base.len() as int;
                    assert(t.stack[ki] == (f, idx));
                    assert(in_pending_range(t, i));
                } else {
                    let ki: int = t.stack.len() as int - 1;
                    assert(t.stack[ki] == (idx, l));
                    assert(in_pending_range(t, i));
                }
            }
        }
    }
    assert forall|i: int| #[trigger] t.removed.dom().contains(i) implies removed_wf(t, i) by {
        assert(removed_wf(s, i));
        let (lo, hi, d) = s.removed[i];
        assert(ranges_disjoint((lo, hi), s.stack[last]));
        assert forall|j: int| lo < j < hi implies !(#[trigger] t.keep[j]) by {}
        assert forall|k: int| 0 <= k < t.stack.len() implies ranges_disjoint(
            (lo, hi),
            #[trigger] t.stack[k],
        ) by {}
    }
}

/// The points selected by the keep markers, in their original order.
pub open spec fn filter_kept(pts: Seq<IntPoint>, keep: Seq<bool>) -> Seq<IntPoint>
    recommends
        pts.len() == keep.len(),
    decreases pts.len(),
{
    if pts.len() == 0 {
        Seq::empty()
    } else {
        let rest = filter_kept(pts.drop_last(), keep.drop_last());
        if keep.last() {
            rest.push(pts.last())
        } else {
            rest
        }
    }
}

/// A strictly increasing index map that embeds `sub` into `full`.
pub open spec fn subsequence_map(m: Seq<int>, sub: Seq<IntPoint>, full: Seq<IntPoint>) -> bool {
    &&& m.len() == sub.len()
    &&& forall|k: int| 0 <= k < m.len() ==> 0 <= #[trigger] m[k] < full.len() && sub[k] == full[m[k]]
    &&& forall|k: int| 0 < k < m.len() ==> #[trigger] m[k - 1] < m[k]
}

/// `sub` is an order-preserving subsequence of `full`.
pub open spec fn is_subsequence_of(sub: Seq<IntPoint>, full: Seq<IntPoint>) -> bool {
    exists|m: Seq<int>| subsequence_map(m, sub, full)
}

/// Whatever the keep markers are, selecting by them yields an
/// order-preserving subsequence of the input.
pub proof fn lemma_filter_kept_subsequence(pts: Seq<IntPoint>, keep: Seq<bool>)
    requires
        pts.len() == keep.len(),
    ensures
        is_subsequence_of(filter_kept(pts, keep), pts),
    decreases pts.len(),
{
    if pts.len() == 0 {
        let m = Seq::<int>::empty();
        assert(subsequence_map(m, filter_kept(pts, keep), pts));
    } else {
        lemma_filter_kept_subsequence(pts.drop_last(), keep.drop_last());
        let rest = filter_kept(pts.drop_last(), keep.drop_last());
        let m0 = choose|m: Seq<int>| subsequence_map(m, rest, pts.drop_last());
        if keep.last() {
            let m = m0.push(pts.len() - 1);
            assert(subsequence_map(m, filter_kept(pts, keep), pts));
        } else {
            assert(subsequence_map(m0, filter_kept(pts, keep), pts));
        }
    }
}

/// When the first marker is set, the selection starts with the first point.
pub proof fn lemma_filter_kept_first(pts: Seq<IntPoint>, keep: Seq<bool>)
    requires
        pts.len() == keep.len(),
        pts.len() >= 1,
        keep[0],
    ensures
        filter_kept(pts, keep).len() >= 1,
        filter_kept(pts, keep)[0] == pts[0],
    decreases pts.len(),
{
    if pts.len() == 1 {
        assert(keep.last() == keep[0]);
        assert(filter_kept(pts, keep) == filter_kept(pts.drop_last(), keep.drop_last()).push(
            pts.last(),
        ));
    } else {
        assert(pts.drop_last()[0] == pts[0]);
        assert(keep.drop_last()[0] == keep[0]);
        lemma_filter_kept_first(pts.drop_last(), keep.drop_last());
        let rest = filter_kept(pts.drop_last(), keep.drop_last());
        assert(rest.len() >= 1);
        if keep.last() {
            assert(filter_kept(pts, keep)[0] == rest.push(pts.last())[0]);
            assert(rest.push(pts.last())[0] == rest[0]);
        }
    }
}

/// Endpoint preservation: a trajectory whose first and last markers are set
/// — as the simplifier's invariant guarantees — selects to a subsequence
/// that starts with the first input point and ends with the last one.
pub proof fn lemma_endpoints_kept(pts: Seq<IntPoint>, keep: Seq<bool>)
    requires
        pts.len() == keep.len(),
        pts.len() >= 1,
        keep[0],
        keep[pts.len() - 1],
    ensures
        filter_kept(pts, keep).len() >= 1,
        filter_kept(pts, keep)[0] == pts[0],
        filter_kept(pts, keep).last() == pts.last(),
{
    lemma_filter_kept_first(pts, keep);
}

/// Tolerance bound: once no range is pending, every index the simplifier
/// dropped was measured against the chord of its two bounding kept indices
/// — they enclose it, and nothing strictly between them is kept — and the
/// deviation reported for it then was within the tolerance.
pub proof fn lemma_tolerance_bound(s: SimplifierModel)
    requires
        simplifier_inv(s),
        s.stack.len() == 0,
    ensures
        forall|i: int|
            0 < i < s.keep.len() - 1 && !(#[trigger] s.keep[i]) ==> s.removed.dom().contains(i)
                && removed_wf(s, i),
{
    assert forall|i: int|
        0 < i < s.keep.len() - 1 && !(#[trigger] s.keep[i]) implies s.removed.dom().contains(i)
        && removed_wf(s, i) by {
        assert(!in_pending_range(s, i));
    }
}

/// Dropping the whole interior of the top range, every deviation within
/// tolerance, preserves the simplifier's invariant.
proof fn lemma_inv_collapse(s: SimplifierModel, t: SimplifierModel, f: int, l: int, ds: Seq<u64>)
    requires
        simplifier_inv(s),
        s.stack.len() > 0,
        s.stack.last() == (f, l),
        ds.len() == l - f - 1,
        forall|k: int| 0 <= k < ds.len() ==> #[trigger] ds[k] <= s.eps,
        t.eps == s.eps,
        t.keep == s.keep,
        t.stack == s.stack.drop_last(),
        t.removed == Map::new(
            |i: int| s.removed.dom().contains(i) || f < i < l,
            |i: int|
                if f < i < l {
                    (f, l, ds[i - f - 1])
                } else {
                    s.removed[i]
                },
        ),
    ensures
        simplifier_inv(t),
{
    let n = s.keep.len() as int;
    let last = s.stack.len() - 1;
    assert(range_wf(s, last));
    assert forall|k: int| 0 <= k < t.stack.len() implies ranges_disjoint(
        (f, l),
        #[trigger] s.stack[k],
    ) by {
        assert(ranges_disjoint(s.stack[last], s.stack[k]));
    }
    // an old chord record never lies inside the collapsing range
    assert forall|i: int| #[trigger] s.removed.dom().contains(i) implies !(f < i < l) by {
        assert(removed_wf(s, i));
        let (lo, hi, d) = s.removed[i];
        assert(ranges_disjoint((lo, hi), s.stack[last]));
    }
    assert forall|k: int| 0 <= k < t.stack.len() implies #[trigger] range_wf(t, k) by {
        assert(range_wf(s, k));
        assert(t.stack[k] == s.stack[k]);
    }
    assert forall|i: int|
        0 < i < n - 1 && !(#[trigger] t.keep[i]) implies t.removed.dom().contains(i)
            || in_pending_range(t, i) by {
        if !s.removed.dom().contains(i) && !(f < i < l) {
            let k = choose|k: int|
                0 <= k < s.stack.len() && (#[trigger] s.stack[k]).0 < i < s.stack[k].1;
            assert(k < last);
            assert(t.stack[k] == s.stack[k]);
            assert(in_pending_range(t, i));
        }
    }
    assert forall|i: int| #[trigger] t.removed.dom().contains(i) implies removed_wf(t, i) by {
        if f < i < l {
            assert(t.removed[i] == (f, l, ds[i - f - 1]));
            assert(ds[i - f - 1] <= s.eps);
            assert(!t.keep[i]);
            assert forall|k: int| 0 <= k < t.stack.len() implies ranges_disjoint(
                (f, l),
                #[trigger] t.stack[k],
            ) by {}
        } else {
            assert(s.removed.dom().contains(i));
            assert(removed_wf(s, i));
            assert(t.removed[i] == s.removed[i]);
            let (lo, hi, d) = s.removed[i];
            assert forall|k: int| 0 <= k < t.stack.len() implies ranges_disjoint(
                (lo, hi),
                #[trigger] t.stack[k],
            ) by {
                assert(t.stack[k] == s.stack[k]);
            }
        }
    }
}

impl Simplifier {
    /// The simplified trajectory: the input points selected by the keep
    /// markers, in their original order.
    pub fn kept_points(&self, pts: &Vec<IntPoint>) -> (out: Vec<IntPoint>)
        requires
            pts@.len() == self@.keep.len(),
        ensures
            out@ == filter_kept(pts@, self@.keep),
    {
        let mut out: Vec<IntPoint> = Vec::new();
        let mut i: usize = 0;
        while i < pts.len()
            invariant
                i <= pts@.len(),
                pts@.len() == self@.keep.len(),
                out@ == filter_kept(pts@.take(i as int), self@.keep.take(i as int)),
            decreases pts@.len() - i,
        {
            proof {
                assert(pts@.take(i + 1).drop_last() =~= pts@.take(i as int));
                assert(self@.keep.take(i + 1).drop_last() =~= self@.keep.take(i as int));
                assert(pts@.take(i + 1).last() == pts@[i as int]);
                assert(self@.keep.take(i + 1).last() == self@.keep[i as int]);
            }
            if self.keep[i] {
                out.push(pts[i]);
            }
            i = i + 1;
        }
        proof {
            assert(pts@.take(pts@.len() as int) =~= pts@);
            assert(self@.keep.take(pts@.len() as int) =~= self@.keep);
        }
        out
    }
}

/// The deviations of the interior points of the range `(f, l)` from its
/// chord, in ascending index order, under the deviation measure `dev`:
/// `dev(f, l, i)` stands for the measured deviation of point `i` from the
/// chord between points `f` and `l`.
pub open spec fn chord_devs(dev: spec_fn(int, int, int) -> u64, f: int, l: int) -> Seq<u64> {
    Seq::new((l - f - 1) as nat, |k: int| dev(f, l, f + 1 + k))
}

/// The set of indices the divide-and-conquer rule keeps on the range
/// `(f, l)` with tolerance `eps`, for a given deviation measure: a range
/// without interior keeps its endpoints; otherwise the first-wins maximum
/// deviation decides whether the range splits at that index or collapses to
/// its endpoints.
pub open spec fn rdp_keep_set(dev: spec_fn(int, int, int) -> u64, f: int, l: int, eps: u64) -> Set<
    int,
>
    recommends
        f < l,
    decreases l - f,
    when f < l
    via rdp_keep_set_decreases
{
    if l <= f + 1 {
        set![f, l]
    } else {
        let ds = chord_devs(dev, f, l);
        let m = first_max_index(ds);
        let idx = f + 1 + m;
        if ds[m] > eps {
            rdp_keep_set(dev, f, idx, eps).union(rdp_keep_set(dev, idx, l, eps))
        } else {
            set![f, l]
        }
    }
}

#[via_fn]
proof fn rdp_keep_set_decreases(dev: spec_fn(int, int, int) -> u64, f: int, l: int, eps: u64) {
    if f + 1 < l {
        lemma_first_max_index(chord_devs(dev, f, l));
    }
}

/// Both endpoints of a range are always kept on it.
pub proof fn lemma_keep_set_endpoints(dev: spec_fn(int, int, int) -> u64, f: int, l: int, eps: u64)
    requires
        f < l,
    ensures
        rdp_keep_set(dev, f, l, eps).contains(f),
        rdp_keep_set(dev, f, l, eps).contains(l),
    decreases l - f,
{
    if f + 1 < l {
        let ds = chord_devs(dev, f, l);
        lemma_first_max_index(ds);
        let idx = f + 1 + first_max_index(ds);
        if ds[first_max_index(ds)] > eps {
            lemma_keep_set_endpoints(dev, f, idx, eps);
            lemma_keep_set_endpoints(dev, idx, l, eps);
        }
    }
}

/// What a range keeps is a finite set of indices within the range.
pub proof fn lemma_keep_set_finite(dev: spec_fn(int, int, int) -> u64, f: int, l: int, eps: u64)
    requires
        f < l,
    ensures
        rdp_keep_set(dev, f, l, eps).finite(),
        forall|i: int| #[trigger] rdp_keep_set(dev, f, l, eps).contains(i) ==> f <= i <= l,
    decreases l - f,
{
    if f + 1 < l {
        let ds = chord_devs(dev, f, l);
        lemma_first_max_index(ds);
        let idx = f + 1 + first_max_index(ds);
        if ds[first_max_index(ds)] > eps {
            lemma_keep_set_finite(dev, f, idx, eps);
            lemma_keep_set_finite(dev, idx, l, eps);
        }
    }
}

/// Monotonicity: raising the tolerance never keeps a point that the lower
/// tolerance dropped — the kept set under `eps2 >= eps1` is a subset of the
/// kept set under `eps1`, for the same deviation measure.
pub proof fn lemma_simplify_monotone(
    dev: spec_fn(int, int, int) -> u64,
    f: int,
    l: int,
    eps1: u64,
    eps2: u64,
)
    requires
        f < l,
        eps1 <= eps2,
    ensures
        rdp_keep_set(dev, f, l, eps2).subset_of(rdp_keep_set(dev, f, l, eps1)),
    decreases l - f,
{
    if f + 1 < l {
        let ds = chord_devs(dev, f, l);
        lemma_first_max_index(ds);
        let idx = f + 1 + first_max_index(ds);
        if ds[first_max_index(ds)] > eps2 {
            lemma_simplify_monotone(dev, f, idx, eps1, eps2);
            lemma_simplify_monotone(dev, idx, l, eps1, eps2);
        } else if ds[first_max_index(ds)] > eps1 {
            lemma_keep_set_endpoints(dev, f, idx, eps1);
            lemma_keep_set_endpoints(dev, idx, l, eps1);
        }
    }
}

/// Monotonicity, counted: a tighter tolerance keeps at least as many points.
pub proof fn lemma_simplify_monotone_count(
    dev: spec_fn(int, int, int) -> u64,
    f: int,
    l: int,
    eps1: u64,
    eps2: u64,
)
    requires
        f < l,
        eps1 <= eps2,
    ensures
        rdp_keep_set(dev, f, l, eps2).len() <= rdp_keep_set(dev, f, l, eps1).len(),
{
    lemma_simplify_monotone(dev, f, l, eps1, eps2);
    lemma_keep_set_finite(dev, f, l, eps1);
    lemma_len_subset(rdp_keep_set(dev, f, l, eps2), rdp_keep_set(dev, f, l, eps1));
}


/// The indices whose keep marker is set.
pub open spec fn kept_set(keep: Seq<bool>) -> Set<int> {
    Set::new(|i: int| 0 <= i < keep.len() && keep[i])
}

/// Everything the pending ranges will still keep, under the deviation
/// measure `dev`.
pub open spec fn pending_keep_sets(
    dev: spec_fn(int, int, int) -> u64,
    st: Seq<(int, int)>,
    eps: u64,
) -> Set<int>
    decreases st.len(),
{
    if st.len() == 0 {
        Set::empty()
    } else {
        pending_keep_sets(dev, st.drop_last(), eps).union(
            rdp_keep_set(dev, st.last().0, st.last().1, eps),
        )
    }
}

proof fn lemma_pending_keep_sets_push(
    dev: spec_fn(int, int, int) -> u64,
    st: Seq<(int, int)>,
    r: (int, int),
    eps: u64,
)
    ensures
        pending_keep_sets(dev, st.push(r), eps) == pending_keep_sets(dev, st, eps).union(
            rdp_keep_set(dev, r.0, r.1, eps),
        ),
{
    assert(st.push(r).drop_last() =~= st);
}

/// A freshly started simplifier agrees with the functional model: what is
/// kept already, together with what its pending range will keep, is exactly
/// what the divide-and-conquer rule keeps on the whole index range.
pub proof fn lemma_new_matches_model(dev: spec_fn(int, int, int) -> u64, s: SimplifierModel)
    requires
        s.keep.len() >= 2,
        forall|i: int|
            0 <= i < s.keep.len() ==> (#[trigger] s.keep[i] <==> (i == 0 || i == s.keep.len()
                - 1)),
        s.keep.len() > 2 ==> s.stack =~= seq![(0int, s.keep.len() - 1 as int)],
        s.keep.len() == 2 ==> s.stack =~= Seq::<(int, int)>::empty(),
    ensures
        kept_set(s.keep).union(pending_keep_sets(dev, s.stack, s.eps)) == rdp_keep_set(
            dev,
            0,
            s.keep.len() - 1,
            s.eps,
        ),
{
    let n = s.keep.len() as int;
    lemma_keep_set_endpoints(dev, 0, n - 1, s.eps);
    if n > 2 {
        assert(s.stack.len() == 1);
        assert(s.stack.last() == (0int, n - 1));
        assert(s.stack.drop_last() =~= Seq::<(int, int)>::empty());
        assert(pending_keep_sets(dev, s.stack, s.eps) == pending_keep_sets(
            dev,
            s.stack.drop_last(),
            s.eps,
        ).union(rdp_keep_set(dev, 0, n - 1, s.eps)));
        assert(pending_keep_sets(dev, s.stack, s.eps) =~= rdp_keep_set(dev, 0, n - 1, s.eps));
        assert(kept_set(s.keep).union(pending_keep_sets(dev, s.stack, s.eps)) =~= rdp_keep_set(
            dev,
            0,
            n - 1,
            s.eps,
        ));
    } else {
        assert(rdp_keep_set(dev, 0, 1, s.eps) == set![0int, 1int]);
        assert(kept_set(s.keep).union(pending_keep_sets(dev, s.stack, s.eps)) =~= rdp_keep_set(
            dev,
            0,
            1,
            s.eps,
        ));
    }
}

/// A resolve step whose deviations are the measure\'s own values neither
/// adds to nor loses from what the run will keep: the kept markers plus the
/// pending ranges\' contributions stay exactly the functional model\'s kept
/// set. Chained from [`lemma_new_matches_model`] over a whole run, the final
/// markers of a driver that always reports `dev` equal the model, on which
/// [`lemma_simplify_monotone`] states monotonicity in the tolerance.
pub proof fn lemma_resolve_matches_model(
    dev: spec_fn(int, int, int) -> u64,
    s: SimplifierModel,
    t: SimplifierModel,
)
    requires
        simplifier_inv(s),
        s.stack.len() > 0,
        t.eps == s.eps,
        ({
            let (f, l) = s.stack.last();
            let ds = chord_devs(dev, f, l);
            let m = first_max_index(ds);
            let idx = f + 1 + m;
            if ds[m] > s.eps {
                &&& t.keep == s.keep.update(idx, true)
                &&& t.stack == s.stack.drop_last() + (if idx > f + 1 {
                    seq![(f, idx)]
                } else {
                    Seq::<(int, int)>::empty()
                }) + (if idx + 1 < l {
                    seq![(idx, l)]
                } else {
                    Seq::<(int, int)>::empty()
                })
            } else {
                &&& t.keep == s.keep
                &&& t.stack == s.stack.drop_last()
            }
        }),
    ensures
        kept_set(t.keep).union(pending_keep_sets(dev, t.stack, s.eps)) == kept_set(s.keep).union(
            pending_keep_sets(dev, s.stack, s.eps),
        ),
{
    let n = s.keep.len() as int;
    let (f, l) = s.stack.last();
    let ds = chord_devs(dev, f, l);
    let m = first_max_index(ds);
    let idx = f + 1 + m;
    let base = s.stack.drop_last();
    assert(range_wf(s, s.stack.len() - 1));
    assert(0 <= f && f + 1 < l && l < n);
    assert(s.keep[f] && s.keep[l]);
    lemma_first_max_index(ds);
    assert(f < idx < l);
    assert(s.stack =~= base.push((f, l)));
    lemma_pending_keep_sets_push(dev, base, (f, l), s.eps);
    let old_all = kept_set(s.keep).union(pending_keep_sets(dev, s.stack, s.eps));
    if ds[m] > s.eps {
        assert(rdp_keep_set(dev, f, l, s.eps) == rdp_keep_set(dev, f, idx, s.eps).union(
            rdp_keep_set(dev, idx, l, s.eps),
        ));
        lemma_keep_set_endpoints(dev, f, idx, s.eps);
        lemma_keep_set_endpoints(dev, idx, l, s.eps);
        let left_set = rdp_keep_set(dev, f, idx, s.eps);
        let right_set = rdp_keep_set(dev, idx, l, s.eps);
        let new_pending = pending_keep_sets(dev, t.stack, s.eps);
        if idx > f + 1 && idx + 1 < l {
            assert(t.stack =~= base.push((f, idx)).push((idx, l)));
            lemma_pending_keep_sets_push(dev, base, (f, idx), s.eps);
            lemma_pending_keep_sets_push(dev, base.push((f, idx)), (idx, l), s.eps);
            assert(new_pending == pending_keep_sets(dev, base, s.eps).union(left_set).union(
                right_set,
            ));
        } else if idx > f + 1 {
            assert(t.stack =~= base.push((f, idx)));
            lemma_pending_keep_sets_push(dev, base, (f, idx), s.eps);
            assert(right_set == set![idx, l]);
        } else if idx + 1 < l {
            assert(t.stack =~= base.push((idx, l)));
            lemma_pending_keep_sets_push(dev, base, (idx, l), s.eps);
            assert(left_set == set![f, idx]);
        } else {
            assert(t.stack =~= base);
            assert(left_set == set![f, idx]);
            assert(right_set == set![idx, l]);
        }
        assert(kept_set(t.keep).union(new_pending) =~= old_all) by {
            assert(kept_set(s.keep).contains(f));
            assert(kept_set(s.keep).contains(l));
            assert(kept_set(t.keep).contains(idx));
            assert(left_set.contains(f) && left_set.contains(idx));
            assert(right_set.contains(idx) && right_set.contains(l));
            assert forall|x: int| #[trigger] kept_set(t.keep).contains(x) implies x == idx
                || kept_set(s.keep).contains(x) by {}
            assert forall|x: int| #[trigger] kept_set(s.keep).contains(x) implies kept_set(
                t.keep,
            ).contains(x) by {}
        }
    } else {
        assert(rdp_keep_set(dev, f, l, s.eps) == set![f, l]);
        assert(t.stack =~= base);
        assert(kept_set(t.keep).union(pending_keep_sets(dev, t.stack, s.eps)) =~= old_all) by {
            assert(kept_set(s.keep).contains(f));
            assert(kept_set(s.keep).contains(l));
        }
    }
}

/// Once nothing is pending, the keep markers alone are the functional
/// model\'s kept set.
pub proof fn lemma_done_matches_model(
    dev: spec_fn(int, int, int) -> u64,
    s: SimplifierModel,
    n: int,
)
    requires
        s.stack.len() == 0,
        s.keep.len() == n,
        kept_set(s.keep).union(pending_keep_sets(dev, s.stack, s.eps)) == rdp_keep_set(
            dev,
            0,
            n - 1,
            s.eps,
        ),
    ensures
        kept_set(s.keep) == rdp_keep_set(dev, 0, n - 1, s.eps),
{
    assert(kept_set(s.keep).union(pending_keep_sets(dev, s.stack, s.eps)) =~= kept_set(s.keep));
}

/// The simplified output has exactly one point per kept index, so the
/// monotonicity of the kept sets in the tolerance is monotonicity of the
/// output length.
pub proof fn lemma_filter_kept_len(pts: Seq<IntPoint>, keep: Seq<bool>)
    requires
        pts.len() == keep.len(),
    ensures
        kept_set(keep).finite(),
        filter_kept(pts, keep).len() == kept_set(keep).len(),
    decreases pts.len(),
{
    if pts.len() == 0 {
        assert(kept_set(keep) =~= Set::<int>::empty());
    } else {
        lemma_filter_kept_len(pts.drop_last(), keep.drop_last());
        let n1 = pts.len() - 1;
        if keep.last() {
            assert(kept_set(keep) =~= kept_set(keep.drop_last()).insert(n1));
            assert(!kept_set(keep.drop_last()).contains(n1));
        } else {
            assert(kept_set(keep) =~= kept_set(keep.drop_last()));
        }
    }
}

} // verus!
