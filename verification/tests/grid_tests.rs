use geocompact::grid::grid_cluster;
use geocompact::grid::clusters_to_flat;
use geocompact::grid::CellKey;
use geocompact::grid::Cluster;
use geocompact::point::IntPoint;

const SCALE: f64 = 1e5;
const EARTH_RADIUS_M: f64 = 6_371_000.0;

fn to_xy_meters(p: &IntPoint, lat0_rad: f64) -> (f64, f64) {
    let lat = (p.lat as f64 / SCALE).to_radians();
    let lng = (p.lng as f64 / SCALE).to_radians();
    (EARTH_RADIUS_M * lng * lat0_rad.cos(), EARTH_RADIUS_M * lat)
}

fn cell_keys(points: &Vec<IntPoint>, cell_size_m: f64) -> Vec<CellKey> {
    let mut lat_sum: f64 = 0.0;
    for p in points {
        lat_sum += p.lat as f64 / SCALE;
    }
    let lat0_rad = (lat_sum / points.len() as f64).to_radians();
    let mut keys: Vec<CellKey> = Vec::new();
    for p in points {
        let (x, y) = to_xy_meters(p, lat0_rad);
        keys.push(CellKey { x: (x / cell_size_m).floor() as i64, y: (y / cell_size_m).floor() as i64 });
    }
    keys
}

fn cluster(points: &Vec<IntPoint>, cell_size_m: f64) -> Vec<Cluster> {
    if points.is_empty() {
        return Vec::new();
    }
    let keys = cell_keys(points, cell_size_m);
    grid_cluster(points, &keys)
}

fn pt(lat: i32, lng: i32) -> IntPoint {
    IntPoint::new(lat, lng)
}

#[test]
fn five_nearby_points_form_one_cell() {
    // all five points sit within a few meters of each other, far inside one
    // 100 m cell
    let points = vec![pt(0, 0), pt(1, 1), pt(2, 2), pt(3, 3), pt(4, 4)];
    let out = cluster(&points, 100.0);
    assert_eq!(out.len(), 1);
    assert_eq!(out[0].count, 5);
    // the centroid is the truncated fixed-point mean: (0+1+2+3+4)/5 = 2
    assert_eq!(out[0].centroid.lat, 2);
    assert_eq!(out[0].centroid.lng, 2);
}

#[test]
fn counts_partition_the_input() {
    // three groups around distinct spots tens of kilometers apart
    let points = vec![
        pt(0, 0),
        pt(10, 10),
        pt(0, 300000),
        pt(5, 300005),
        pt(12, 299990),
        pt(300000, 0),
    ];
    let cell: f64 = 1000.0;
    let out = cluster(&points, cell);
    let total: i32 = out.iter().map(|c| c.count).sum();
    assert_eq!(total as usize, points.len());
    // every point's key appears in exactly one emitted cluster
    let keys = cell_keys(&points, cell);
    for k in &keys {
        let hits: usize = out.iter().filter(|c| c.key.x == k.x && c.key.y == k.y).count();
        assert_eq!(hits, 1);
    }
    assert_eq!(out.len(), 3);
}

#[test]
fn empty_input_yields_empty_output() {
    let points: Vec<IntPoint> = Vec::new();
    let out = cluster(&points, 50.0);
    assert_eq!(out.len(), 0);
}

#[test]
fn centroid_truncates_toward_zero() {
    // southern-hemisphere points: the mean of -1 and -2 truncates to -1,
    // where a flooring division would give -2
    let points = vec![pt(-1, -1), pt(-2, -2)];
    let out = cluster(&points, 1000.0);
    assert_eq!(out.len(), 1);
    assert_eq!(out[0].count, 2);
    assert_eq!(out[0].centroid.lat, -1);
    assert_eq!(out[0].centroid.lng, -1);
}

#[test]
fn single_point_is_its_own_centroid() {
    let points = vec![pt(4712345, -7409876)];
    let out = cluster(&points, 25.0);
    assert_eq!(out.len(), 1);
    assert_eq!(out[0].count, 1);
    assert_eq!(out[0].centroid.lat, 4712345);
    assert_eq!(out[0].centroid.lng, -7409876);
}

#[test]
fn clusters_flatten_to_triples() {
    let cs = vec![
        Cluster { key: CellKey { x: 0, y: 0 }, centroid: IntPoint::new(10, 20), count: 3 },
        Cluster { key: CellKey { x: -1, y: 2 }, centroid: IntPoint::new(-30, 40), count: 1 },
    ];
    let flat = clusters_to_flat(&cs);
    assert_eq!(flat, vec![10, 20, 3, -30, 40, 1]);
}

#[test]
fn grouping_ignores_distant_key_reuse() {
    // two points share a cell, a third sits alone; the shared cell's
    // centroid is the truncated mean of its two points only
    let points = vec![pt(100, 200), pt(102, 204), pt(2000000, 2000000)];
    let keys = vec![
        CellKey { x: 7, y: 7 },
        CellKey { x: 7, y: 7 },
        CellKey { x: 9, y: 9 },
    ];
    let out = grid_cluster(&points, &keys);
    assert_eq!(out.len(), 2);
    let shared = out.iter().find(|c| c.key.x == 7).unwrap();
    assert_eq!(shared.count, 2);
    assert_eq!(shared.centroid.lat, 101);
    assert_eq!(shared.centroid.lng, 202);
    let alone = out.iter().find(|c| c.key.x == 9).unwrap();
    assert_eq!(alone.count, 1);
}
