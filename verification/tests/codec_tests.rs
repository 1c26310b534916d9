use geocompact::codec::compress_shortcut;
use geocompact::codec::points_to_flat;
use geocompact::codec::to_points;
use geocompact::point::IntPoint;

#[test]
fn decode_pairs_left_to_right() {
    let flat: Vec<i32> = vec![1, 2, 3, 4, -5, -6];
    let pts = to_points(&flat);
    assert_eq!(pts.len(), 3);
    assert_eq!((pts[0].lat, pts[0].lng), (1, 2));
    assert_eq!((pts[1].lat, pts[1].lng), (3, 4));
    assert_eq!((pts[2].lat, pts[2].lng), (-5, -6));
}

#[test]
fn decode_drops_trailing_unpaired_value() {
    let flat: Vec<i32> = vec![7, 8, 9];
    let pts = to_points(&flat);
    assert_eq!(pts.len(), 1);
    assert_eq!((pts[0].lat, pts[0].lng), (7, 8));
}

#[test]
fn decode_empty_and_single() {
    assert_eq!(to_points(&Vec::new()).len(), 0);
    assert_eq!(to_points(&vec![42]).len(), 0);
}

#[test]
fn encode_interleaves_in_order() {
    let pts = vec![IntPoint::new(10, 20), IntPoint::new(-30, 40)];
    let flat = points_to_flat(&pts);
    assert_eq!(flat, vec![10, 20, -30, 40]);
}

#[test]
fn round_trip_points_to_flat_and_back() {
    let pts = vec![IntPoint::new(1, -1), IntPoint::new(2, -2), IntPoint::new(3, -3)];
    let back = to_points(&points_to_flat(&pts));
    assert_eq!(back.len(), pts.len());
    for i in 0..pts.len() {
        assert_eq!((back[i].lat, back[i].lng), (pts[i].lat, pts[i].lng));
    }
}

#[test]
fn round_trip_even_flat_through_points() {
    let flat: Vec<i32> = vec![5, 6, 7, 8];
    assert_eq!(points_to_flat(&to_points(&flat)), flat);
}

#[test]
fn shortcut_returns_two_points_unchanged() {
    let flat: Vec<i32> = vec![0, 0, 0, 100000];
    let r = compress_shortcut(&flat);
    assert_eq!(r, Some(flat));
}

#[test]
fn shortcut_keeps_odd_trailing_value_byte_for_byte() {
    let flat: Vec<i32> = vec![0, 0, 0, 100000, 77];
    let r = compress_shortcut(&flat);
    assert_eq!(r, Some(vec![0, 0, 0, 100000, 77]));
}

#[test]
fn shortcut_declines_three_points() {
    let flat: Vec<i32> = vec![0, 0, 0, 50000, 0, 100000];
    assert_eq!(compress_shortcut(&flat), None);
}

#[test]
fn shortcut_returns_empty_unchanged() {
    let flat: Vec<i32> = Vec::new();
    assert_eq!(compress_shortcut(&flat), Some(Vec::new()));
}
