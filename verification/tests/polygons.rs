use cocotools::binary64::Binary64;
use cocotools::coco::object_detection::{outlines_match, same_numbers, PolygonsRS};

fn outline(values: &[f64]) -> Vec<Binary64> {
    values.iter().map(|v| Binary64::from_bits(v.to_bits())).collect()
}

fn polygons(outlines: &[&[f64]]) -> PolygonsRS {
    PolygonsRS { size: vec![20, 20], counts: outlines.iter().map(|o| outline(o)).collect() }
}

#[test]
fn polygon_equality_single_polygon() {
    assert_eq!(
        polygons(&[&[1.1, 2.1, 3.2, 4.2, 5.3, 6.3]]),
        polygons(&[&[1.1, 2.1, 3.2, 4.2, 5.3, 6.3]])
    );
}

#[test]
fn polygon_equality_two_polygons() {
    assert_eq!(
        polygons(&[&[1.1, 2.1, 3.2, 4.2, 5.3, 6.3], &[7.4, 8.4, 9.5, 10.5, 11.6, 12.6]]),
        polygons(&[&[1.1, 2.1, 3.2, 4.2, 5.3, 6.3], &[7.4, 8.4, 9.5, 10.5, 11.6, 12.6]])
    );
}

#[test]
fn polygon_equality_two_polygons_different_order() {
    assert_eq!(
        polygons(&[&[1.1, 2.1, 3.2, 4.2, 5.3, 6.3], &[7.4, 8.4, 9.5, 10.5, 11.6, 12.6]]),
        polygons(&[&[7.4, 8.4, 9.5, 10.5, 11.6, 12.6], &[1.1, 2.1, 3.2, 4.2, 5.3, 6.3]])
    );
}

#[test]
fn polygon_equality_different_start_point() {
    assert_eq!(
        polygons(&[&[1.1, 2.1, 3.2, 4.2, 5.3, 6.3], &[7.4, 8.4, 9.5, 10.5, 11.6, 12.6]]),
        polygons(&[&[11.6, 12.6, 7.4, 8.4, 9.5, 10.5], &[3.2, 4.2, 5.3, 6.3, 1.1, 2.1]])
    );
}

#[test]
fn polygon_equality_reversed_order() {
    assert_eq!(
        polygons(&[&[1.1, 2.1, 3.2, 4.2, 5.3, 6.3, 7.4, 8.4]]),
        polygons(&[&[7.4, 8.4, 5.3, 6.3, 3.2, 4.2, 1.1, 2.1]])
    );
}

#[test]
fn polygon_equality_reversed_from_another_point() {
    assert_eq!(
        polygons(&[&[1.1, 2.1, 3.2, 4.2, 5.3, 6.3, 7.4, 8.4]]),
        polygons(&[&[3.2, 4.2, 1.1, 2.1, 7.4, 8.4, 5.3, 6.3]])
    );
}

#[test]
fn polygon_inequality_different_length() {
    assert_ne!(
        polygons(&[&[1.1, 2.1, 3.2, 4.2, 5.3, 6.3, 7.4, 8.4]]),
        polygons(&[&[1.1, 2.1, 3.2, 4.2, 5.3, 6.3]])
    );
}

#[test]
fn polygon_inequality_different_digit() {
    assert_ne!(
        polygons(&[&[1.1, 2.1, 3.2, 4.2, 5.3, 6.3]]),
        polygons(&[&[2.1, 2.1, 3.2, 4.2, 5.3, 6.3]])
    );
}

#[test]
fn polygon_inequality_different_number_of_polygons() {
    assert_ne!(
        polygons(&[&[1.1, 2.1, 3.2, 4.2, 5.3, 6.3, 7.4, 8.4]]),
        polygons(&[&[1.1, 2.1, 3.2, 4.2, 5.3, 6.3, 7.4, 8.4], &[7.4, 8.4, 9.5, 10.5, 11.6, 12.6]])
    );
}

#[test]
fn polygon_inequality_x_y_inverted() {
    assert_ne!(
        polygons(&[&[1.1, 2.1, 3.2, 4.2, 5.3, 6.3]]),
        polygons(&[&[2.1, 2.1, 4.2, 3.2, 6.3, 5.3]])
    );
}

#[test]
fn polygon_inequality_different_size() {
    let one = polygons(&[&[1.1, 2.1, 3.2, 4.2, 5.3, 6.3]]);
    let mut other = polygons(&[&[1.1, 2.1, 3.2, 4.2, 5.3, 6.3]]);
    other.size = vec![20, 21];
    assert_ne!(one, other);
}

#[test]
fn polygon_equality_is_that_of_the_numbers() {
    // The two zeros are one number, and what is no number equals nothing.
    assert_eq!(polygons(&[&[0.0, 1.0, 2.0, 3.0]]), polygons(&[&[-0.0, 1.0, 2.0, 3.0]]));
    assert_ne!(polygons(&[&[f64::NAN, 1.0, 2.0, 3.0]]), polygons(&[&[f64::NAN, 1.0, 2.0, 3.0]]));
    // An outline without points is no outline.
    assert_ne!(polygons(&[&[]]), polygons(&[&[]]));
    assert_eq!(polygons(&[]), polygons(&[]));
}

#[test]
fn outlines_match_from_any_point() {
    let a = outline(&[1.0, 2.0, 3.0, 4.0, 5.0, 6.0]);
    assert!(outlines_match(&a, &outline(&[3.0, 4.0, 5.0, 6.0, 1.0, 2.0])));
    assert!(outlines_match(&a, &outline(&[5.0, 6.0, 1.0, 2.0, 3.0, 4.0])));
    assert!(outlines_match(&a, &outline(&[5.0, 6.0, 3.0, 4.0, 1.0, 2.0])));
    assert!(outlines_match(&a, &outline(&[1.0, 2.0, 5.0, 6.0, 3.0, 4.0])));
    assert!(!outlines_match(&a, &outline(&[6.0, 5.0, 4.0, 3.0, 2.0, 1.0])));
    // A shift by one coordinate puts an x in the place of a y: other points.
    assert!(!outlines_match(&a, &outline(&[2.0, 3.0, 4.0, 5.0, 6.0, 1.0])));
    assert!(!outlines_match(&a, &outline(&[6.0, 1.0, 2.0, 3.0, 4.0, 5.0])));
    // Coordinates that do not come in pairs are only themselves.
    let odd = outline(&[1.0, 2.0, 3.0]);
    assert!(outlines_match(&odd, &outline(&[1.0, 2.0, 3.0])));
    assert!(!outlines_match(&odd, &outline(&[3.0, 1.0, 2.0])));
    assert!(!outlines_match(&odd, &outline(&[3.0, 2.0, 1.0])));
    assert!(!outlines_match(&outline(&[]), &outline(&[])));
}

#[test]
fn polygon_inequality_shift_by_one_coordinate() {
    let a = PolygonsRS { size: vec![20, 20], counts: vec![outline(&[1.0, 2.0, 3.0, 4.0, 5.0, 6.0])] };
    let b = PolygonsRS { size: vec![20, 20], counts: vec![outline(&[2.0, 3.0, 4.0, 5.0, 6.0, 1.0])] };
    assert_ne!(a, b);
    // The same number everywhere is the same outline from any point.
    let c = PolygonsRS { size: vec![20, 20], counts: vec![outline(&[7.0, 7.0, 7.0, 7.0])] };
    let d = PolygonsRS { size: vec![20, 20], counts: vec![outline(&[7.0, 7.0, 7.0, 7.0])] };
    assert_eq!(c, d);
}

#[test]
fn same_numbers_compares_sizes() {
    assert!(same_numbers(&vec![4, 5], &vec![4, 5]));
    assert!(!same_numbers(&vec![4, 5], &vec![5, 4]));
    assert!(!same_numbers(&vec![4, 5], &vec![4]));
}
