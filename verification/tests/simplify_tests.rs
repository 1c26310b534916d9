use geocompact::point::IntPoint;
use geocompact::simplify::first_max;
use geocompact::simplify::Simplifier;

const SCALE: f64 = 1e5;
const EARTH_RADIUS_M: f64 = 6_371_000.0;

fn int_to_deg(p: &IntPoint) -> (f64, f64) {
    (p.lat as f64 / SCALE, p.lng as f64 / SCALE)
}

fn to_xy_meters(p: &IntPoint, lat0_rad: f64) -> (f64, f64) {
    let (lat_deg, lng_deg) = int_to_deg(p);
    let lat = lat_deg.to_radians();
    let lng = lng_deg.to_radians();
    (EARTH_RADIUS_M * lng * lat0_rad.cos(), EARTH_RADIUS_M * lat)
}

fn perpendicular_distance_m(p: &IntPoint, a: &IntPoint, b: &IntPoint) -> f64 {
    let (lat_a, _) = int_to_deg(a);
    let lat0_rad = lat_a.to_radians();
    let (ax, ay) = to_xy_meters(a, lat0_rad);
    let (bx, by) = to_xy_meters(b, lat0_rad);
    let (px, py) = to_xy_meters(p, lat0_rad);
    let vx = bx - ax;
    let vy = by - ay;
    let wx = px - ax;
    let wy = py - ay;
    let v_len2 = vx * vx + vy * vy;
    if v_len2 == 0.0 {
        return ((px - ax).powi(2) + (py - ay).powi(2)).sqrt();
    }
    let t = (wx * vx + wy * vy) / v_len2;
    let t_clamped = t.clamp(0.0, 1.0);
    let proj_x = ax + t_clamped * vx;
    let proj_y = ay + t_clamped * vy;
    ((px - proj_x).powi(2) + (py - proj_y).powi(2)).sqrt()
}

fn meters_to_um(d: f64) -> u64 {
    if d <= 0.0 {
        0
    } else {
        (d * 1e6) as u64
    }
}

fn rdp(points: &Vec<IntPoint>, eps_m: f64) -> Vec<IntPoint> {
    let n: usize = points.len();
    if n <= 2 {
        return points.clone();
    }
    let mut sim = Simplifier::new(n, meters_to_um(eps_m));
    while let Some((f, l)) = sim.next_range() {
        let mut devs: Vec<u64> = Vec::new();
        for i in (f + 1)..l {
            devs.push(meters_to_um(perpendicular_distance_m(&points[i], &points[f], &points[l])));
        }
        sim.resolve(&devs);
    }
    sim.kept_points(points)
}

fn pt(lat: i32, lng: i32) -> IntPoint {
    IntPoint::new(lat, lng)
}

fn same_point(a: &IntPoint, b: &IntPoint) -> bool {
    a.lat == b.lat && a.lng == b.lng
}

fn zigzag() -> Vec<IntPoint> {
    vec![
        pt(0, 0),
        pt(3000, 10000),
        pt(-2000, 20000),
        pt(4000, 30000),
        pt(0, 40000),
        pt(-3500, 50000),
        pt(1000, 60000),
        pt(0, 70000),
    ]
}

#[test]
fn straight_line_collapses_to_endpoints() {
    let points = vec![pt(0, 0), pt(0, 50000), pt(0, 100000)];
    let out = rdp(&points, 1.0);
    assert_eq!(out.len(), 2);
    assert!(same_point(&out[0], &points[0]));
    assert!(same_point(&out[1], &points[2]));
}

#[test]
fn l_shape_keeps_corner_with_wide_tolerance() {
    // a right angle: east along the equator for a degree, then due north,
    // with one midpoint on the first leg; the corner is tens of kilometers
    // off the straight chord, far over the 10 km tolerance
    let points = vec![pt(0, 0), pt(0, 50000), pt(0, 100000), pt(100000, 100000)];
    let out = rdp(&points, 10_000.0);
    assert_eq!(out.len(), 3);
    assert!(same_point(&out[0], &points[0]));
    assert!(same_point(&out[1], &points[2]));
    assert!(same_point(&out[2], &points[3]));
}

#[test]
fn endpoints_always_kept() {
    let points = zigzag();
    for eps in [0.5, 100.0, 3000.0, 1_000_000.0] {
        let out = rdp(&points, eps);
        assert!(out.len() >= 2);
        assert!(same_point(&out[0], &points[0]));
        assert!(same_point(&out[out.len() - 1], &points[points.len() - 1]));
    }
}

#[test]
fn output_is_order_preserving_subsequence() {
    let points = zigzag();
    let out = rdp(&points, 2000.0);
    let mut next: usize = 0;
    for q in &out {
        let mut found = false;
        while next < points.len() {
            next += 1;
            if same_point(q, &points[next - 1]) {
                found = true;
                break;
            }
        }
        assert!(found, "output point missing from input or out of order");
    }
}

#[test]
fn removed_points_within_tolerance_of_their_chord() {
    let points = zigzag();
    let eps: f64 = 2500.0;
    let out = rdp(&points, eps);
    // reconstruct the kept-index set; points are distinct here
    let mut kept: Vec<usize> = Vec::new();
    for (i, p) in points.iter().enumerate() {
        if out.iter().any(|q| same_point(q, p)) {
            kept.push(i);
        }
    }
    assert_eq!(kept.len(), out.len());
    for i in 0..points.len() {
        if kept.contains(&i) {
            continue;
        }
        let lo = *kept.iter().filter(|&&k| k < i).max().unwrap();
        let hi = *kept.iter().filter(|&&k| k > i).min().unwrap();
        let d = perpendicular_distance_m(&points[i], &points[lo], &points[hi]);
        // the verified comparison is made on whole micrometers
        assert!(d <= eps + 1e-6, "removed point {} deviates {} m", i, d);
    }
}

#[test]
fn tighter_tolerance_keeps_at_least_as_many_points() {
    let points = zigzag();
    let mut eps: f64 = 0.25;
    let mut last_len: usize = usize::MAX;
    while eps < 100_000.0 {
        let out = rdp(&points, eps);
        assert!(out.len() <= last_len);
        last_len = out.len();
        eps *= 4.0;
    }
}

#[test]
fn simplification_is_idempotent() {
    let points = zigzag();
    for eps in [1.0, 500.0, 2500.0, 40_000.0] {
        let once = rdp(&points, eps);
        let twice = rdp(&once, eps);
        assert_eq!(once.len(), twice.len());
        for i in 0..once.len() {
            assert!(same_point(&once[i], &twice[i]));
        }
    }
}

#[test]
fn huge_tolerance_leaves_only_endpoints() {
    let points = zigzag();
    let out = rdp(&points, 1e9);
    assert_eq!(out.len(), 2);
}

#[test]
fn two_points_returned_unchanged() {
    let points = vec![pt(5, 6), pt(7, 8)];
    let out = rdp(&points, 0.0);
    assert_eq!(out.len(), 2);
    assert!(same_point(&out[0], &points[0]));
    assert!(same_point(&out[1], &points[1]));
}

#[test]
fn first_max_prefers_earliest_on_tie() {
    assert_eq!(first_max(&vec![5, 7, 7, 3]), 1);
    assert_eq!(first_max(&vec![0, 0, 0]), 0);
    assert_eq!(first_max(&vec![1, 2, 9]), 2);
    assert_eq!(first_max(&vec![9]), 0);
}

#[test]
fn zero_deviations_collapse_even_at_zero_tolerance() {
    // every deviation equal to the tolerance is dropped: the comparison is
    // strict, mirroring the rule that a maximum must exceed the tolerance
    let mut sim = Simplifier::new(3, 0);
    let (f, l) = sim.next_range().unwrap();
    assert_eq!((f, l), (0, 2));
    sim.resolve(&vec![0]);
    assert!(sim.is_done());
    let points = vec![pt(0, 0), pt(1000, 0), pt(2000, 0)];
    let out = sim.kept_points(&points);
    assert_eq!(out.len(), 2);
}
