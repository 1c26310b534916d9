//! Grid clustering: aggregation of points into equal-area square cells.
//!
//! A point's cell is found by projecting it onto a local plane around the
//! point set's mean latitude and flooring each planar coordinate divided by
//! the cell side. That projection is floating-point geometry and stays with
//! the caller, which hands in one [`CellKey`] per point; everything from
//! there on — grouping, per-cell fixed-point sums and counts, and the
//! truncating integer division that yields each centroid — is verified.
use vstd::prelude::*;
use vstd::arithmetic::div_mod::lemma_div_by_multiple;
use vstd::arithmetic::div_mod::lemma_div_is_ordered;

use crate::point::IntPoint;

verus! {

/// The grid cell a point falls in: the floor of each of its planar
/// coordinates divided by the cell side, as computed by the caller.
#[derive(Clone, Copy, PartialEq, Eq, Structural)]
pub struct CellKey {
    pub x: i64,
    pub y: i64,
}

/// One occupied cell: its key, the truncated fixed-point mean of the points
/// that fell in it, and how many did.
#[derive(Clone, Copy, PartialEq, Eq, Structural)]
pub struct Cluster {
    pub key: CellKey,
    pub centroid: IntPoint,
    pub count: i32,
}

/// How many of the keys equal `k`.
pub open spec fn count_key(keys: Seq<CellKey>, k: CellKey) -> int
    decreases keys.len(),
{
    if keys.len() == 0 {
        0
    } else {
        count_key(keys.drop_last(), k) + if keys.last() == k {
            1int
        } else {
            0int
        }
    }
}

/// The sum of the fixed-point latitudes of the points whose key is `k`.
pub open spec fn sum_lat_key(pts: Seq<IntPoint>, keys: Seq<CellKey>, k: CellKey) -> int
    recommends
        pts.len() == keys.len(),
    decreases pts.len(),
{
    if pts.len() == 0 {
        0
    } else {
        sum_lat_key(pts.drop_last(), keys.drop_last(), k) + if keys.len() == pts.len()
            && keys.last() == k {
            pts.last().lat as int
        } else {
            0int
        }
    }
}

/// The sum of the fixed-point longitudes of the points whose key is `k`.
pub open spec fn sum_lng_key(pts: Seq<IntPoint>, keys: Seq<CellKey>, k: CellKey) -> int
    recommends
        pts.len() == keys.len(),
    decreases pts.len(),
{
    if pts.len() == 0 {
        0
    } else {
        sum_lng_key(pts.drop_last(), keys.drop_last(), k) + if keys.len() == pts.len()
            && keys.last() == k {
            pts.last().lng as int
        } else {
            0int
        }
    }
}

/// Integer division truncating toward zero, the rule the centroid uses.
pub open spec fn trunc_div(a: int, b: int) -> int
    recommends
        b > 0,
{
    if a >= 0 {
        a / b
    } else {
        -((-a) / b)
    }
}

/// The total of the emitted per-cell counts.
pub open spec fn sum_counts(cs: Seq<Cluster>) -> int
    decreases cs.len(),
{
    if cs.len() == 0 {
        0
    } else {
        sum_counts(cs.drop_last()) + cs.last().count as int
    }
}

proof fn lemma_count_key_push(keys: Seq<CellKey>, x: CellKey, k: CellKey)
    ensures
        count_key(keys.push(x), k) == count_key(keys, k) + if x == k {
            1int
        } else {
            0int
        },
{
    assert(keys.push(x).drop_last() =~= keys);
}

proof fn lemma_sum_key_push(
    pts: Seq<IntPoint>,
    keys: Seq<CellKey>,
    p: IntPoint,
    x: CellKey,
    k: CellKey,
)
    requires
        pts.len() == keys.len(),
    ensures
        sum_lat_key(pts.push(p), keys.push(x), k) == sum_lat_key(pts, keys, k) + if x == k {
            p.lat as int
        } else {
            0int
        },
        sum_lng_key(pts.push(p), keys.push(x), k) == sum_lng_key(pts, keys, k) + if x == k {
            p.lng as int
        } else {
            0int
        },
{
    assert(pts.push(p).drop_last() =~= pts);
    assert(keys.push(x).drop_last() =~= keys);
}

proof fn lemma_sum_counts_push(cs: Seq<Cluster>, c: Cluster)
    ensures
        sum_counts(cs.push(c)) == sum_counts(cs) + c.count as int,
{
    assert(cs.push(c).drop_last() =~= cs);
}

/// The count of a key never exceeds the number of keys, and the per-key
/// coordinate sums stay between the count times the extreme fixed-point
/// values.
pub proof fn lemma_key_sums_bounded(pts: Seq<IntPoint>, keys: Seq<CellKey>, k: CellKey)
    requires
        pts.len() == keys.len(),
    ensures
        0 <= count_key(keys, k) <= keys.len(),
        count_key(keys, k) * (-0x8000_0000) <= sum_lat_key(pts, keys, k) <= count_key(keys, k)
            * 0x7fff_ffff,
        count_key(keys, k) * (-0x8000_0000) <= sum_lng_key(pts, keys, k) <= count_key(keys, k)
            * 0x7fff_ffff,
    decreases pts.len(),
{
    if pts.len() > 0 {
        lemma_key_sums_bounded(pts.drop_last(), keys.drop_last(), k);
        let c0 = count_key(keys.drop_last(), k);
        if keys.last() == k {
            assert((c0 + 1) * (-0x8000_0000) == c0 * (-0x8000_0000) + (-0x8000_0000))
                by (nonlinear_arith);
            assert((c0 + 1) * 0x7fff_ffff == c0 * 0x7fff_ffff + 0x7fff_ffff) by (nonlinear_arith);
        }
    }
}

/// A truncated mean of values that all fit in the fixed-point range fits in
/// it too.
pub proof fn lemma_trunc_div_in_range(sum: int, count: int)
    requires
        count >= 1,
        count * (-0x8000_0000) <= sum <= count * 0x7fff_ffff,
    ensures
        -0x8000_0000 <= trunc_div(sum, count) <= 0x7fff_ffff,
{
    if sum >= 0 {
        lemma_div_is_ordered(sum, count * 0x7fff_ffff, count);
        lemma_div_by_multiple(0x7fff_ffff, count);
        assert(count * 0x7fff_ffff == 0x7fff_ffff * count) by (nonlinear_arith);
        assert(sum / count >= 0) by (nonlinear_arith)
            requires
                sum >= 0 && count >= 1,
        ;
    } else {
        lemma_div_is_ordered(-sum, count * 0x8000_0000, count);
        lemma_div_by_multiple(0x8000_0000, count);
        assert(count * 0x8000_0000 == 0x8000_0000 * count) by (nonlinear_arith);
        assert(-sum >= 0);
        assert((-sum) / count >= 0) by (nonlinear_arith)
            requires
                -sum >= 0 && count >= 1,
        ;
    }
}

/// Division of a signed 64-bit value by a positive one, truncating toward
/// zero: the quotient rule of the centroid.
fn trunc_div_i64(a: i64, b: i64) -> (q: i64)
    requires
        b > 0,
        -0x4000_0000_0000_0000 <= a <= 0x4000_0000_0000_0000,
    ensures
        q as int == trunc_div(a as int, b as int),
{
    if a >= 0 {
        let ua: u64 = a as u64;
        let ub: u64 = b as u64;
        let uq: u64 = ua / ub;
        proof {
            lemma_div_is_ordered(0, a as int, b as int);
            lemma_div_is_ordered(a as int, 0x4000_0000_0000_0000, b as int);
            assert(0x4000_0000_0000_0000int / (b as int) <= 0x4000_0000_0000_0000int) by {
                lemma_div_is_ordered_by_one(0x4000_0000_0000_0000, b as int);
            }
        }
        uq as i64
    } else {
        let ua: u64 = (-a) as u64;
        let ub: u64 = b as u64;
        let uq: u64 = ua / ub;
        proof {
            lemma_div_is_ordered(0, -a as int, b as int);
            lemma_div_is_ordered(-a as int, 0x4000_0000_0000_0000, b as int);
            assert(0x4000_0000_0000_0000int / (b as int) <= 0x4000_0000_0000_0000int) by {
                lemma_div_is_ordered_by_one(0x4000_0000_0000_0000, b as int);
            }
        }
        -(uq as i64)
    }
}

proof fn lemma_div_is_ordered_by_one(x: int, z: int)
    requires
        0 <= x,
        0 < z,
    ensures
        x / z <= x,
{
    if z > 1 {
        vstd::arithmetic::div_mod::lemma_div_is_ordered_by_denominator(x, 1, z);
    }
    assert(x / 1 == x);
}

proof fn lemma_count_zero_iff_absent(keys: Seq<CellKey>, k: CellKey)
    ensures
        count_key(keys, k) >= 0,
        count_key(keys, k) == 0 <==> !keys.contains(k),
    decreases keys.len(),
{
    if keys.len() > 0 {
        lemma_count_zero_iff_absent(keys.drop_last(), k);
        if keys.last() == k {
            assert(keys[keys.len() - 1] == k);
            assert(keys.contains(k));
        }
        if keys.last() != k {
            assert(keys.contains(k) <==> keys.drop_last().contains(k)) by {
                if keys.contains(k) {
                    let w = choose|w: int| 0 <= w < keys.len() && keys[w] == k;
                    assert(keys.drop_last()[w] == k);
                }
                if keys.drop_last().contains(k) {
                    let w = choose|w: int|
                        0 <= w < keys.drop_last().len() && keys.drop_last()[w] == k;
                    assert(keys[w] == k);
                }
            }
        }
    }
}

proof fn lemma_sums_zero_if_absent(pts: Seq<IntPoint>, keys: Seq<CellKey>, k: CellKey)
    requires
        pts.len() == keys.len(),
        !keys.contains(k),
    ensures
        sum_lat_key(pts, keys, k) == 0,
        sum_lng_key(pts, keys, k) == 0,
    decreases pts.len(),
{
    if pts.len() > 0 {
        assert(keys.last() != k);
        assert(!keys.drop_last().contains(k)) by {
            if keys.drop_last().contains(k) {
                let w = choose|w: int|
                    0 <= w < keys.drop_last().len() && keys.drop_last()[w] == k;
                assert(keys[w] == k);
            }
        }
        lemma_sums_zero_if_absent(pts.drop_last(), keys.drop_last(), k);
    }
}

/// A per-cell accumulator while the points are being grouped.
#[derive(Clone, Copy)]
struct Acc {
    key: CellKey,
    sum_lat: i64,
    sum_lng: i64,
    count: i32,
}

spec fn sum_acc_counts(accs: Seq<Acc>) -> int
    decreases accs.len(),
{
    if accs.len() == 0 {
        0
    } else {
        sum_acc_counts(accs.drop_last()) + accs.last().count as int
    }
}

proof fn lemma_sum_acc_push(accs: Seq<Acc>, a: Acc)
    ensures
        sum_acc_counts(accs.push(a)) == sum_acc_counts(accs) + a.count as int,
{
    assert(accs.push(a).drop_last() =~= accs);
}

proof fn lemma_sum_acc_update(accs: Seq<Acc>, j: int, a: Acc)
    requires
        0 <= j < accs.len(),
    ensures
        sum_acc_counts(accs.update(j, a)) == sum_acc_counts(accs) - accs[j].count + a.count,
    decreases accs.len(),
{
    if j == accs.len() - 1 {
        assert(accs.update(j, a).drop_last() =~= accs.drop_last());
        assert(accs.update(j, a).last() == a);
    } else {
        assert(accs.update(j, a).drop_last() =~= accs.drop_last().update(j, a));
        lemma_sum_acc_update(accs.drop_last(), j, a);
    }
}

proof fn lemma_sum_acc_take(accs: Seq<Acc>, j: int)
    requires
        0 <= j < accs.len(),
    ensures
        sum_acc_counts(accs.take(j + 1)) == sum_acc_counts(accs.take(j)) + accs[j].count as int,
{
    assert(accs.take(j + 1).drop_last() =~= accs.take(j));
    assert(accs.take(j + 1).last() == accs[j]);
}

/// The grouping invariant: accumulator keys are distinct and are exactly
/// the keys seen so far, and every accumulator holds the exact count and
/// fixed-point coordinate sums of its cell's points.
spec fn accs_inv(accs: Seq<Acc>, pts: Seq<IntPoint>, keys: Seq<CellKey>) -> bool {
    &&& forall|j1: int, j2: int|
        0 <= j1 < j2 < accs.len() ==> (#[trigger] accs[j1]).key != (#[trigger] accs[j2]).key
    &&& forall|j: int|
        0 <= j < accs.len() ==> {
            let a = #[trigger] accs[j];
            &&& keys.contains(a.key)
            &&& a.count as int == count_key(keys, a.key)
            &&& a.count >= 1
            &&& a.sum_lat as int == sum_lat_key(pts, keys, a.key)
            &&& a.sum_lng as int == sum_lng_key(pts, keys, a.key)
        }
    &&& forall|k: CellKey|
        #[trigger] keys.contains(k) ==> exists|j: int|
            0 <= j < accs.len() && (#[trigger] accs[j]).key == k
}

/// The accumulator holding `k`, if one does.
fn find_key(accs: &Vec<Acc>, k: CellKey) -> (r: Option<usize>)
    ensures
        r matches Some(j) ==> j < accs@.len() && accs@[j as int].key == k,
        r is None ==> forall|t: int| 0 <= t < accs@.len() ==> (#[trigger] accs@[t]).key != k,
{
    let mut j: usize = 0;
    while j < accs.len()
        invariant
            j <= accs@.len(),
            forall|t: int| 0 <= t < j ==> (#[trigger] accs@[t]).key != k,
        decreases accs@.len() - j,
    {
        if accs[j].key == k {
            return Some(j);
        }
        j = j + 1;
    }
    None
}

/// Groups the points by their cell keys and emits, for every occupied cell,
/// its key, the count of its points, and their truncated fixed-point mean:
/// each coordinate is the integer quotient, truncating toward zero, of the
/// cell's coordinate sum by its count. Cells come out keyed distinctly,
/// one per distinct input key; the counts add up to the number of input
/// points, so every point lands in exactly one emitted cell. An empty input
/// yields an empty result.
pub fn grid_cluster(pts: &Vec<IntPoint>, keys: &Vec<CellKey>) -> (out: Vec<Cluster>)
    requires
        pts@.len() == keys@.len(),
        pts@.len() <= 0x7fff_ffff,
    ensures
        forall|j1: int, j2: int|
            0 <= j1 < j2 < out@.len() ==> (#[trigger] out@[j1]).key != (#[trigger] out@[j2]).key,
        forall|j: int|
            0 <= j < out@.len() ==> {
                let c = #[trigger] out@[j];
                &&& keys@.contains(c.key)
                &&& c.count as int == count_key(keys@, c.key)
                &&& c.count >= 1
                &&& c.centroid.lat as int == trunc_div(
                    sum_lat_key(pts@, keys@, c.key),
                    count_key(keys@, c.key),
                )
                &&& c.centroid.lng as int == trunc_div(
                    sum_lng_key(pts@, keys@, c.key),
                    count_key(keys@, c.key),
                )
            },
        forall|k: CellKey|
            #[trigger] keys@.contains(k) ==> exists|j: int|
                0 <= j < out@.len() && (#[trigger] out@[j]).key == k,
        sum_counts(out@) == pts@.len(),
{
    let mut accs: Vec<Acc> = Vec::new();
    let mut i: usize = 0;
    while i < pts.len()
        invariant
            pts@.len() == keys@.len(),
            pts@.len() <= 0x7fff_ffff,
            i <= pts@.len(),
            accs_inv(accs@, pts@.take(i as int), keys@.take(i as int)),
            sum_acc_counts(accs@) == i,
        decreases pts@.len() - i,
    {
        let p = pts[i];
        let k = keys[i];
        let ghost pre_pts = pts@.take(i as int);
        let ghost pre_keys = keys@.take(i as int);
        proof {
            assert(pts@.take(i + 1) =~= pre_pts.push(pts@[i as int]));
            assert(keys@.take(i + 1) =~= pre_keys.push(keys@[i as int]));
        }
        let found = find_key(&accs, k);
        let ghost post_pts = pts@.take(i + 1);
        let ghost post_keys = keys@.take(i + 1);
        match found {
            Some(j) => {
                let a = accs[j];
                proof {
                    lemma_key_sums_bounded(pre_pts, pre_keys, k);
                    let c = a.count as int;
                    assert(c <= 0x7fff_ffff);
                    assert(a.sum_lat as int <= 0x7fff_ffff * 0x7fff_ffffint
                        && a.sum_lat as int >= 0x7fff_ffff * (-0x8000_0000int)) by (nonlinear_arith)
                        requires
                            0 <= c <= 0x7fff_ffff,
                            c * (-0x8000_0000) <= a.sum_lat as int <= c * 0x7fff_ffff,
                    ;
                    assert(a.sum_lng as int <= 0x7fff_ffff * 0x7fff_ffffint
                        && a.sum_lng as int >= 0x7fff_ffff * (-0x8000_0000int)) by (nonlinear_arith)
                        requires
                            0 <= c <= 0x7fff_ffff,
                            c * (-0x8000_0000) <= a.sum_lng as int <= c * 0x7fff_ffff,
                    ;
                }
                let a2 = Acc {
                    key: a.key,
                    sum_lat: a.sum_lat + p.lat as i64,
                    sum_lng: a.sum_lng + p.lng as i64,
                    count: a.count + 1,
                };
                let ghost accs_before = accs@;
                accs[j] = a2;
                proof {
                    let ji = j as int;
                    lemma_sum_acc_update(accs_before, ji, a2);
                    assert(accs_before[ji].key == k);
                    assert(post_keys.last() == k);
                    assert forall|t: int| 0 <= t < accs@.len() implies {
                        let e = #[trigger] accs@[t];
                        &&& post_keys.contains(e.key)
                        &&& e.count as int == count_key(post_keys, e.key)
                        &&& e.count >= 1
                        &&& e.sum_lat as int == sum_lat_key(post_pts, post_keys, e.key)
                        &&& e.sum_lng as int == sum_lng_key(post_pts, post_keys, e.key)
                    } by {
                        let e = accs@[t];
                        lemma_count_key_push(pre_keys, k, e.key);
                        lemma_sum_key_push(pre_pts, pre_keys, pts@[i as int], k, e.key);
                        if t == ji {
                            assert(e == a2);
                            assert(e.key == k);
                            assert(post_keys[post_keys.len() - 1] == e.key);
                        } else {
                            assert(e == accs_before[t]);
                            assert(e.key != k);
                            assert(pre_keys.contains(e.key));
                            let w = choose|w: int|
                                0 <= w < pre_keys.len() && pre_keys[w] == e.key;
                            assert(post_keys[w] == e.key);
                        }
                    }
                    assert forall|k2: CellKey| #[trigger] post_keys.contains(k2) implies exists|
                        t: int,
                    | 0 <= t < accs@.len() && (#[trigger] accs@[t]).key == k2 by {
                        let w = choose|w: int|
                            0 <= w < post_keys.len() && post_keys[w] == k2;
                        if w < pre_keys.len() {
                            assert(pre_keys[w] == k2);
                            assert(pre_keys.contains(k2));
                            let t = choose|t: int|
                                0 <= t < accs_before.len() && (#[trigger] accs_before[t]).key
                                    == k2;
                            assert(accs@[t].key == k2);
                        } else {
                            assert(k2 == k);
                            assert(accs@[ji].key == k2);
                        }
                    }
                }
            },
            None => {
                let a2 = Acc { key: k, sum_lat: p.lat as i64, sum_lng: p.lng as i64, count: 1 };
                let ghost accs_before = accs@;
                proof {
                    lemma_sum_acc_push(accs@, a2);
                }
                accs.push(a2);
                proof {
                    let ji = accs@.len() - 1;
                    assert(post_keys.last() == k);
                    assert forall|t: int| 0 <= t < accs@.len() implies {
                        let e = #[trigger] accs@[t];
                        &&& post_keys.contains(e.key)
                        &&& e.count as int == count_key(post_keys, e.key)
                        &&& e.count >= 1
                        &&& e.sum_lat as int == sum_lat_key(post_pts, post_keys, e.key)
                        &&& e.sum_lng as int == sum_lng_key(post_pts, post_keys, e.key)
                    } by {
                        let e = accs@[t];
                        lemma_count_key_push(pre_keys, k, e.key);
                        lemma_sum_key_push(pre_pts, pre_keys, pts@[i as int], k, e.key);
                        if t == ji {
                            assert(e == a2);
                            assert(post_keys[post_keys.len() - 1] == e.key);
                            assert(count_key(pre_keys, k) == 0) by {
                                lemma_count_zero_iff_absent(pre_keys, k);
                            }
                            assert(sum_lat_key(pre_pts, pre_keys, k) == 0
                                && sum_lng_key(pre_pts, pre_keys, k) == 0) by {
                                lemma_sums_zero_if_absent(pre_pts, pre_keys, k);
                            }
                        } else {
                            assert(e == accs_before[t]);
                            assert(e.key != k);
                            assert(pre_keys.contains(e.key));
                            let w = choose|w: int|
                                0 <= w < pre_keys.len() && pre_keys[w] == e.key;
                            assert(post_keys[w] == e.key);
                        }
                    }
                    assert forall|k2: CellKey| #[trigger] post_keys.contains(k2) implies exists|
                        t: int,
                    | 0 <= t < accs@.len() && (#[trigger] accs@[t]).key == k2 by {
                        let w = choose|w: int|
                            0 <= w < post_keys.len() && post_keys[w] == k2;
                        if w < pre_keys.len() {
                            assert(pre_keys[w] == k2);
                            assert(pre_keys.contains(k2));
                            let t = choose|t: int|
                                0 <= t < accs_before.len() && (#[trigger] accs_before[t]).key
                                    == k2;
                            assert(accs@[t].key == k2);
                        } else {
                            assert(k2 == k);
                            assert(accs@[ji].key == k2);
                        }
                    }
                }
            },
        }
        i = i + 1;
    }
    proof {
        assert(pts@.take(pts@.len() as int) =~= pts@);
        assert(keys@.take(keys@.len() as int) =~= keys@);
    }
    let mut out: Vec<Cluster> = Vec::new();
    let mut j: usize = 0;
    while j < accs.len()
        invariant
            pts@.len() == keys@.len(),
            pts@.len() <= 0x7fff_ffff,
            accs_inv(accs@, pts@, keys@),
            j <= accs@.len(),
            out@.len() == j,
            forall|t: int|
                0 <= t < j ==> (#[trigger] out@[t]).key == accs@[t].key && out@[t].count
                    == accs@[t].count && out@[t].centroid.lat as int == trunc_div(
                    accs@[t].sum_lat as int,
                    accs@[t].count as int,
                ) && out@[t].centroid.lng as int == trunc_div(
                    accs@[t].sum_lng as int,
                    accs@[t].count as int,
                ),
            sum_counts(out@) == sum_acc_counts(accs@.take(j as int)),
        decreases accs@.len() - j,
    {
        let a = accs[j];
        proof {
            lemma_key_sums_bounded(pts@, keys@, a.key);
            let c = a.count as int;
            assert(c <= 0x7fff_ffff);
            assert(a.sum_lat as int <= 0x7fff_ffff * 0x7fff_ffffint && a.sum_lat as int
                >= 0x7fff_ffff * (-0x8000_0000int)) by (nonlinear_arith)
                requires
                    0 <= c <= 0x7fff_ffff,
                    c * (-0x8000_0000) <= a.sum_lat as int <= c * 0x7fff_ffff,
            ;
            assert(a.sum_lng as int <= 0x7fff_ffff * 0x7fff_ffffint && a.sum_lng as int
                >= 0x7fff_ffff * (-0x8000_0000int)) by (nonlinear_arith)
                requires
                    0 <= c <= 0x7fff_ffff,
                    c * (-0x8000_0000) <= a.sum_lng as int <= c * 0x7fff_ffff,
            ;
            lemma_trunc_div_in_range(a.sum_lat as int, c);
            lemma_trunc_div_in_range(a.sum_lng as int, c);
        }
        let qlat = trunc_div_i64(a.sum_lat, a.count as i64);
        let qlng = trunc_div_i64(a.sum_lng, a.count as i64);
        let c2 = Cluster {
            key: a.key,
            centroid: IntPoint { lat: qlat as i32, lng: qlng as i32 },
            count: a.count,
        };
        let ghost out_before = out@;
        out.push(c2);
        proof {
            lemma_sum_counts_push(out_before, c2);
            lemma_sum_acc_take(accs@, j as int);
        }
        j = j + 1;
    }
    proof {
        assert(accs@.take(accs@.len() as int) =~= accs@);
        assert forall|k2: CellKey| #[trigger] keys@.contains(k2) implies exists|j2: int|
            0 <= j2 < out@.len() && (#[trigger] out@[j2]).key == k2 by {
            let t = choose|t: int| 0 <= t < accs@.len() && (#[trigger] accs@[t]).key == k2;
            assert(out@[t].key == k2);
        }
    }
    out
}

/// Encodes the clusters into the flat interleaved form `[lat, lng, count,
/// ...]`, one triple per cell, preserving order.
pub fn clusters_to_flat(cs: &Vec<Cluster>) -> (out: Vec<i32>)
    ensures
        out@.len() == 3 * cs@.len(),
        forall|j: int|
            0 <= j < cs@.len() ==> out@[3 * j] == (#[trigger] cs@[j]).centroid.lat && out@[3 * j
                + 1] == cs@[j].centroid.lng && out@[3 * j + 2] == cs@[j].count,
{
    let mut out: Vec<i32> = Vec::new();
    let mut i: usize = 0;
    while i < cs.len()
        invariant
            i <= cs@.len(),
            out@.len() == 3 * i,
            forall|j: int|
                0 <= j < i ==> out@[3 * j] == (#[trigger] cs@[j]).centroid.lat && out@[3 * j + 1]
                    == cs@[j].centroid.lng && out@[3 * j + 2] == cs@[j].count,
        decreases cs@.len() - i,
    {
        out.push(cs[i].centroid.lat);
        out.push(cs[i].centroid.lng);
        out.push(cs[i].count);
        i = i + 1;
    }
    out
}

} // verus!
