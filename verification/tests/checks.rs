use cocotools::binary64::Binary64;
use cocotools::coco::object_detection::{self, CocoRle, Polygons, PolygonsRS, Rle};
use cocotools::mask::conversions::{
    poly_can_be_filled, shape_can_be_made, total_is_within, Segmentation,
};
use cocotools::mask::Mask;

fn rle(size: &[u32], counts: &[u32]) -> Rle {
    Rle { size: size.to_vec(), counts: counts.to_vec() }
}

fn numbers(values: &[f64]) -> Vec<Binary64> {
    values.iter().map(|v| Binary64::from_bits(v.to_bits())).collect()
}

fn polygons_rs(size: &[u32], outlines: &[&[f64]]) -> PolygonsRS {
    PolygonsRS { size: size.to_vec(), counts: outlines.iter().map(|o| numbers(o)).collect() }
}

#[test]
fn shapes_that_can_be_made() {
    assert!(shape_can_be_made(4, 5));
    assert!(shape_can_be_made(0, 5));
    assert!(shape_can_be_made(0, 0));
    assert!(!shape_can_be_made(usize::MAX, 2));
    assert!(!shape_can_be_made(0, usize::MAX));
}

#[test]
fn totals_within_a_limit() {
    assert!(total_is_within(&vec![5, 2, 2, 2, 5], 16));
    assert!(!total_is_within(&vec![5, 2, 2, 2, 5], 15));
    assert!(total_is_within(&vec![], 0));
    assert!(!total_is_within(&vec![u32::MAX, u32::MAX], u64::from(u32::MAX)));
}

#[test]
fn run_lengths_that_fit() {
    assert!(rle(&[4, 4], &[5, 2, 2, 2, 5]).fits());
    assert!(rle(&[4, 4], &[5, 2]).fits());
    assert!(!rle(&[4, 4], &[5, 2, 2, 2, 6]).fits());
    assert!(!rle(&[4], &[4]).fits());
    assert!(!rle(&[4, 4, 1], &[16]).fits());
    assert!(rle(&[4, 4], &[5, 2, 2, 2, 5]).is_traceable());
    assert!(!rle(&[1 << 30, 1], &[5]).is_traceable());
    assert!(!rle(&[1 << 15, 1 << 15], &[5]).is_traceable());
    assert!(rle(&[1 << 15, (1 << 15) - 1], &[5]).fits());
}

#[test]
fn masks_that_can_be_counted() {
    let m = Mask::from_shape_vec(2, 3, vec![0; 6]).unwrap();
    assert!(m.is_countable());
    assert!(m.is_traceable());
}

#[test]
fn polygons_that_fit() {
    assert!(polygons_rs(&[4, 4], &[&[1.0, 1.0, 1.0, 2.0, 2.0, 2.0, 2.0, 1.0]]).fits());
    // The closing point is taken off.
    assert!(polygons_rs(&[4, 4], &[&[1.0, 1.0, 1.0, 2.0, 2.0, 2.0, 1.0, 1.0]]).fits());
    assert!(polygons_rs(&[4, 4], &[&[1.0, 1.0]]).fits());
    assert!(polygons_rs(&[4, 4], &[&[]]).fits());
    // A point over and over cannot be filled.
    assert!(!polygons_rs(&[4, 4], &[&[1.0, 1.0, 1.0, 1.0, 1.0, 1.0]]).fits());
    assert!(!polygons_rs(&[4, 4], &[&[1.0, 1.0, 1.0, 2.0, 2.0]]).fits());
    assert!(!polygons_rs(&[4, 4], &[&[1.0, 1.0, 1e12, 2.0, 2.0, 2.0]]).fits());
    assert!(!polygons_rs(&[4, 4], &[&[1.0, 1.0, 1073741824.0, 2.0, 2.0, 2.0]]).fits());
    assert!(polygons_rs(&[4, 4], &[&[1.0, 1.0, 1073741823.0, 2.0, 2.0, -1073741823.5]]).fits());
    assert!(!polygons_rs(&[4], &[&[1.0, 1.0, 1.0, 2.0, 2.0, 2.0]]).fits());
    assert!(!polygons_rs(&[1 << 30, 4], &[]).fits());
    assert!(polygons_rs(&[4, 4], &[&[1.0, 1.0, 1.0, 2.0, 2.0, 2.0]]).is_countable());
    assert!(!polygons_rs(&[1 << 20, 1 << 20], &[]).is_countable());
}

#[test]
fn polygon_that_can_be_filled() {
    let poly: Polygons = vec![numbers(&[1.0, 1.0, 1.0, 2.0, 2.0, 2.0])];
    assert!(poly_can_be_filled(&poly, 4, 4));
    assert!(poly_can_be_filled(&Polygons::new(), 4, 4));
    assert!(!poly_can_be_filled(&poly, 1 << 30, 4));
    // The closing point is taken off.
    let closed: Polygons = vec![numbers(&[1.0, 1.0, 1.0, 2.0, 2.0, 2.0, 1.0, 1.0])];
    assert!(poly_can_be_filled(&closed, 4, 4));
    // Every outline is asked: one point over and over is no outline.
    let point: Polygons = vec![numbers(&[1.0, 1.0, 1.0, 2.0, 2.0, 2.0]), numbers(&[1.0, 1.0, 1.0, 1.0])];
    assert!(!poly_can_be_filled(&point, 4, 4));
    let odd: Polygons = vec![numbers(&[1.0, 1.0, 1.0])];
    assert!(!poly_can_be_filled(&odd, 4, 4));
}

#[test]
fn segmentations_that_fit() {
    let counts = object_detection::Segmentation::Rle(rle(&[4, 4], &[5, 2, 2, 2, 5]));
    assert!(counts.fits());
    assert!(counts.is_convertible(Segmentation::Polygons));
    let short = object_detection::Segmentation::Rle(rle(&[4], &[5]));
    assert!(!short.fits());
    assert!(short.is_convertible(Segmentation::CocoRle));
    assert!(!short.is_convertible(Segmentation::Polygons));
    let compressed = |text: &str| {
        object_detection::Segmentation::CocoRle(CocoRle {
            size: vec![4, 4],
            counts: text.to_string(),
        })
    };
    assert!(compressed("52203").fits());
    assert!(!compressed("5`").fits());
    assert!(!compressed("o0").fits());
    assert!(compressed("o0").is_convertible(Segmentation::Rle));
    assert!(!compressed("o0").is_convertible(Segmentation::Polygons));
    assert!(compressed("5`").is_convertible(Segmentation::CocoRle));
    assert!(!compressed("5`").is_convertible(Segmentation::Rle));
    let polygons = object_detection::Segmentation::PolygonsRS(polygons_rs(
        &[4, 4],
        &[&[1.0, 1.0, 1.0, 1.0, 1.0, 1.0]],
    ));
    assert!(!polygons.fits());
    assert!(polygons.is_convertible(Segmentation::Polygons));
    assert!(!polygons.is_convertible(Segmentation::Rle));
    let bare = object_detection::Segmentation::Polygons(vec![numbers(&[1.0])]);
    assert!(bare.fits());
    assert!(bare.is_convertible(Segmentation::Rle));
}
