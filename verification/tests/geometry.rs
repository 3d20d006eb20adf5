use viewstage::geom::{distance, line_segments_intersect, perpendicular_distance, quantize_coord};

#[test]
fn test_distance() {
    assert_eq!(distance(0, 0, 3, 4), 5);
}

#[test]
fn test_quantize_coord() {
    // coordinates in thousandths: 1.3 and 1.4 against a 0.25 grid
    assert_eq!(quantize_coord(1300, 250), 1250);
    assert_eq!(quantize_coord(1400, 250), 1500);
}

#[test]
fn quantize_zero_step_is_identity() {
    assert_eq!(quantize_coord(1234, 0), 1234);
}

#[test]
fn quantize_negative_coordinate() {
    assert_eq!(quantize_coord(-1300, 250), -1250);
    assert_eq!(quantize_coord(-1400, 250), -1500);
}

#[test]
fn quantize_is_on_grid_and_close() {
    for c in [-1001, -37, 0, 5, 999, 123456] {
        for s in [1, 3, 7, 250] {
            let q = quantize_coord(c, s);
            assert_eq!(q.rem_euclid(s), 0);
            assert!(2 * (q - c).abs() <= s);
        }
    }
}

#[test]
fn distance_of_equal_points_is_zero() {
    assert_eq!(distance(7, -3, 7, -3), 0);
}

#[test]
fn distance_rounds_down() {
    // sqrt(2) = 1.41..., the floor is 1
    assert_eq!(distance(0, 0, 1, 1), 1);
}

#[test]
fn perpendicular_distance_to_horizontal_segment() {
    assert_eq!(perpendicular_distance(0, 5, 0, 0, 10, 0), 5);
    assert_eq!(perpendicular_distance(5, 3, 0, 0, 10, 0), 3);
    // beyond the end, the distance is to the endpoint
    assert_eq!(perpendicular_distance(13, 4, 0, 0, 10, 0), 5);
}

#[test]
fn segments_crossing() {
    assert!(line_segments_intersect(0, 0, 10, 10, 0, 10, 10, 0));
    assert!(!line_segments_intersect(0, 0, 1, 1, 5, 5, 6, 4));
}
