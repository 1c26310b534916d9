//! Codec between a flat interleaved fixed-point sequence and a point list.
//!
//! The wire form is `[lat1, lng1, lat2, lng2, ...]`. Pairs are taken left to
//! right; an odd-length sequence silently drops its trailing unpaired value.
use vstd::prelude::*;

use crate::point::IntPoint;

verus! {

/// The point list encoded by a flat interleaved sequence: element `k` pairs
/// the integers at positions `2k` and `2k + 1`; a trailing unpaired value is
/// dropped.
pub open spec fn pairs_of(flat: Seq<i32>) -> Seq<IntPoint> {
    Seq::new(flat.len() / 2, |k: int| IntPoint { lat: flat[2 * k], lng: flat[2 * k + 1] })
}

/// The flat interleaved encoding of a point list: latitude then longitude
/// per point, in order.
pub open spec fn flat_of(pts: Seq<IntPoint>) -> Seq<i32> {
    Seq::new(pts.len() * 2, |j: int| if j % 2 == 0 { pts[j / 2].lat } else { pts[j / 2].lng })
}

/// Decoding inverts encoding exactly: no information is lost on a round
/// trip that starts from points.
pub proof fn lemma_decode_encode(pts: Seq<IntPoint>)
    ensures
        pairs_of(flat_of(pts)) == pts,
{
    let flat = flat_of(pts);
    assert(flat.len() == pts.len() * 2);
    assert forall|k: int| 0 <= k < pts.len() implies pairs_of(flat)[k] == pts[k] by {
        assert((2 * k) % 2 == 0);
        assert((2 * k + 1) % 2 == 1);
        assert((2 * k) / 2 == k);
        assert((2 * k + 1) / 2 == k);
    }
    assert(pairs_of(flat) =~= pts);
}

/// Encoding inverts decoding on even-length input: the round trip through
/// points returns the same flat sequence.
pub proof fn lemma_encode_decode(flat: Seq<i32>)
    requires
        flat.len() % 2 == 0,
    ensures
        flat_of(pairs_of(flat)) == flat,
{
    let pts = pairs_of(flat);
    assert(flat_of(pts).len() == flat.len());
    assert forall|j: int| 0 <= j < flat.len() implies flat_of(pts)[j] == flat[j] by {
        if j % 2 == 0 {
            assert(2 * (j / 2) == j);
        } else {
            assert(2 * (j / 2) + 1 == j);
        }
    }
    assert(flat_of(pts) =~= flat);
}

/// Decodes a flat interleaved sequence into points, pairing left to right
/// and dropping a trailing unpaired value.
pub fn to_points(flat: &Vec<i32>) -> (pts: Vec<IntPoint>)
    ensures
        pts@ == pairs_of(flat@),
{
    let mut pts: Vec<IntPoint> = Vec::new();
    let mut i: usize = 0;
    while i + 1 < flat.len()
        invariant
            i % 2 == 0,
            i <= flat.len(),
            pts@ == pairs_of(flat@.take(i as int)),
        decreases flat.len() - i,
    {
        pts.push(IntPoint { lat: flat[i], lng: flat[i + 1] });
        proof {
            let t0 = flat@.take(i as int);
            let t2 = flat@.take(i + 2);
            assert forall|k: int| 0 <= k < t2.len() / 2 implies pairs_of(t2)[k]
                == pairs_of(t0).push(IntPoint { lat: flat@[i as int], lng: flat@[i + 1] })[k] by {
                assert(2 * k + 1 < i + 2);
            }
            assert(pairs_of(t2) =~= pairs_of(t0).push(
                IntPoint { lat: flat@[i as int], lng: flat@[i + 1] },
            ));
        }
        i = i + 2;
    }
    proof {
        let t = flat@.take(i as int);
        assert forall|k: int| 0 <= k < pairs_of(flat@).len() implies pairs_of(flat@)[k]
            == pairs_of(t)[k] by {
            assert(2 * k + 1 < i);
        }
        assert(pairs_of(t) =~= pairs_of(flat@));
    }
    pts
}

/// Encodes points into the flat interleaved form, preserving order.
pub fn points_to_flat(pts: &Vec<IntPoint>) -> (out: Vec<i32>)
    ensures
        out@ == flat_of(pts@),
{
    let mut out: Vec<i32> = Vec::new();
    let mut i: usize = 0;
    while i < pts.len()
        invariant
            i <= pts.len(),
            out@ == flat_of(pts@.take(i as int)),
        decreases pts.len() - i,
    {
        out.push(pts[i].lat);
        out.push(pts[i].lng);
        proof {
            let t0 = pts@.take(i as int);
            let t1 = pts@.take(i + 1);
            assert forall|j: int| 0 <= j < flat_of(t1).len() implies flat_of(t1)[j] == flat_of(
                t0,
            ).push(pts@[i as int].lat).push(pts@[i as int].lng)[j] by {
                if j % 2 == 0 {
                    assert(2 * (j / 2) == j);
                } else {
                    assert(2 * (j / 2) + 1 == j);
                }
            }
            assert(flat_of(t1) =~= flat_of(t0).push(pts@[i as int].lat).push(pts@[i as int].lng));
        }
        i = i + 1;
    }
    proof {
        assert(pts@.take(pts@.len() as int) =~= pts@);
    }
    out
}

/// The caller-level short circuit of trajectory compression: a flat
/// sequence that decodes to at most two points is handed back unchanged,
/// byte for byte (a trailing unpaired value included); a longer one is
/// declined so that the caller runs the simplifier on it.
pub fn compress_shortcut(flat: &Vec<i32>) -> (r: Option<Vec<i32>>)
    ensures
        r is Some <==> pairs_of(flat@).len() <= 2,
        r matches Some(v) ==> v@ == flat@,
{
    if flat.len() <= 5 {
        let mut copy: Vec<i32> = Vec::new();
        let mut i: usize = 0;
        while i < flat.len()
            invariant
                i <= flat.len(),
                copy@ == flat@.take(i as int),
            decreases flat.len() - i,
        {
            copy.push(flat[i]);
            proof {
                assert(flat@.take(i + 1) =~= flat@.take(i as int).push(flat@[i as int]));
            }
            i = i + 1;
        }
        proof {
            assert(flat@.take(flat@.len() as int) =~= flat@);
        }
        Some(copy)
    } else {
        None
    }
}

} // verus!
