use cocotools::binary64::Binary64;
use cocotools::coco::object_detection::{Bbox, CocoRle, Polygons, PolygonsRS, Rle};
use cocotools::mask::utils::{extent, Area, Extent};
use cocotools::mask::Mask;

fn rle(size: [u32; 2], counts: &[u32]) -> Rle {
    Rle { size: size.to_vec(), counts: counts.to_vec() }
}

fn coco_rle(size: [u32; 2], counts: &str) -> CocoRle {
    CocoRle { size: size.to_vec(), counts: counts.to_string() }
}

fn number(value: f64) -> Binary64 {
    Binary64::from_bits(value.to_bits())
}

fn numbers(values: &[f64]) -> Vec<Binary64> {
    values.iter().map(|v| number(*v)).collect()
}

fn bbox(left: f64, top: f64, width: f64, height: f64) -> Bbox {
    Bbox { left: number(left), top: number(top), width: number(width), height: number(height) }
}

fn polygons_rs(size: [u32; 2], outlines: &[&[f64]]) -> PolygonsRS {
    PolygonsRS { size: size.to_vec(), counts: outlines.iter().map(|o| numbers(o)).collect() }
}

#[test]
fn area_of_run_lengths() {
    assert_eq!(rle([4, 4], &[5, 2, 2, 2, 5]).area(), 4);
    assert_eq!(rle([40, 40], &[245, 5, 35, 5, 35, 5, 35, 5, 35, 5, 1190]).area(), 25);
    assert_eq!(rle([4, 4], &[16]).area(), 0);
    assert_eq!(rle([4, 4], &[0, 16]).area(), 16);
    assert_eq!(rle([0, 0], &[]).area(), 0);
}

#[test]
fn area_that_does_not_fit() {
    assert!(rle([4, 4], &[5, 2, 2, 2, 5]).is_measurable());
    assert!(rle([1, 1], &[0, u32::MAX, 7, 0]).is_measurable());
    assert!(!rle([1, 1], &[0, u32::MAX, 0, 1]).is_measurable());
}

#[test]
fn area_of_compressed_run_lengths() {
    assert_eq!(coco_rle([4, 4], "52203").area(), 4);
    assert_eq!(coco_rle([40, 40], "e75S10000000ST1").area(), 25);
    assert!(coco_rle([4, 4], "52203").is_measurable());
    assert!(!coco_rle([4, 4], "5`").is_measurable());
}

#[test]
fn area_of_polygons_with_size() {
    let square = polygons_rs([4, 4], &[&[1.0, 1.0, 1.0, 2.0, 2.0, 2.0, 2.0, 1.0]]);
    assert!(square.is_measurable());
    assert_eq!(square.area(), 4);
    assert_eq!(polygons_rs([4, 4], &[]).area(), 0);
}

#[test]
fn area_is_the_same_in_every_encoding() {
    let m = Mask::from_shape_vec(
        5,
        6,
        vec![
            0, 0, 0, 0, 0, 0, //
            0, 1, 1, 1, 0, 0, //
            0, 1, 1, 1, 0, 0, //
            0, 1, 1, 1, 0, 0, //
            0, 0, 0, 0, 0, 0,
        ],
    )
    .unwrap();
    let counts = Rle::from_mask(&m);
    let compressed = CocoRle::try_from_rle(&counts).unwrap();
    let polygons = PolygonsRS::from_mask(&m);
    assert_eq!(counts.area(), 9);
    assert_eq!(compressed.area(), 9);
    assert_eq!(polygons.area(), 9);
}

#[test]
fn area_of_polygons_without_size() {
    // The outline is filled in the image that reaches to the greatest x and
    // y: here 3 by 3 pixels, of which the square covers 4.
    let one: Polygons = vec![numbers(&[1.0, 1.0, 3.0, 1.0, 3.0, 3.0, 1.0, 3.0])];
    assert!(one.is_measurable());
    assert_eq!(one.area(), 4);
    let none = Polygons::new();
    assert!(none.is_measurable());
    assert_eq!(none.area(), 0);
    // Every outline is filled: the second one adds three pixels to the four
    // of the first one, and shares one with it.
    let two: Polygons = vec![
        numbers(&[1.0, 1.0, 3.0, 1.0, 3.0, 3.0, 1.0, 3.0]),
        numbers(&[0.0, 0.0, 1.0, 0.0, 1.0, 1.0, 0.0, 1.0]),
    ];
    assert!(two.is_measurable());
    assert_eq!(two.area(), 7);
    // An outline that ends in its first point is filled without that point.
    let closed: Polygons = vec![numbers(&[1.0, 1.0, 3.0, 1.0, 3.0, 3.0, 1.0, 3.0, 1.0, 1.0])];
    assert!(closed.is_measurable());
    assert_eq!(closed.area(), 4);
    let point: Polygons = vec![numbers(&[2.0, 2.0, 2.5, 2.0, 2.5, 2.5])];
    assert!(!point.is_measurable());
}

#[test]
fn bbox_of_run_lengths() {
    assert_eq!(Bbox::from_rle(&rle([4, 4], &[5, 2, 2, 2, 5])), bbox(1.0, 1.0, 1.0, 1.0));
    assert_eq!(
        Bbox::from_rle(&rle([40, 40], &[245, 5, 35, 5, 35, 5, 35, 5, 35, 5, 1190])),
        bbox(6.0, 5.0, 4.0, 4.0)
    );
    assert_eq!(Bbox::from_rle(&rle([4, 5], &[8, 4, 8])), bbox(2.0, 0.0, 0.0, 3.0));
    assert_eq!(
        Bbox::from_rle(&rle([4, 5], &[1, 1, 3, 1, 3, 1, 3, 1, 3, 1, 2])),
        bbox(0.0, 1.0, 4.0, 0.0)
    );
}

#[test]
fn bbox_of_run_lengths_without_object() {
    assert_eq!(Bbox::from_rle(&rle([4, 4], &[16])), bbox(0.0, 0.0, 0.0, 0.0));
    assert_eq!(Bbox::from_rle(&rle([4, 4], &[])), bbox(0.0, 0.0, 0.0, 0.0));
    let background = Mask::from_shape_vec(3, 2, vec![0; 6]).unwrap();
    assert_eq!(Bbox::from_rle(&Rle::from_mask(&background)), bbox(0.0, 0.0, 0.0, 0.0));
}

#[test]
fn bbox_of_an_object_up_to_the_end() {
    // The last column of the image, rows 0 to 3.
    assert_eq!(Bbox::from_rle(&rle([4, 4], &[12, 4])), bbox(3.0, 0.0, 0.0, 3.0));
    // The whole image.
    assert_eq!(Bbox::from_rle(&rle([4, 4], &[0, 16])), bbox(0.0, 0.0, 3.0, 3.0));
    // From the second pixel of the second column to the last pixel.
    assert_eq!(Bbox::from_rle(&rle([4, 4], &[5, 11])), bbox(1.0, 1.0, 2.0, 2.0));
    // Two pixels at the end of the last column.
    assert_eq!(Bbox::from_rle(&rle([4, 4], &[2, 2, 10, 2])), bbox(0.0, 2.0, 3.0, 1.0));
    // A last run of the object that is empty adds nothing.
    assert!(rle([4, 4], &[5, 2, 9, 0]).has_box());
    assert_eq!(Bbox::from_rle(&rle([4, 4], &[5, 2, 9, 0])), Bbox::from_rle(&rle([4, 4], &[5, 2, 9])));
}

#[test]
fn bbox_that_cannot_be_taken() {
    assert!(rle([4, 4], &[5, 2, 2, 2, 5]).has_box());
    assert!(Rle { size: vec![4], counts: vec![16] }.has_box());
    assert!(!Rle { size: vec![4], counts: vec![5, 11] }.has_box());
    assert!(!rle([0, 4], &[5, 11]).has_box());
    // More pixels than 32 bits count.
    assert!(!rle([4, 4], &[u32::MAX, 1, 16]).has_box());
    assert!(!rle([4, 4], &[u32::MAX, 1]).has_box());
    assert!(rle([4, 4], &[u32::MAX - 1, 1]).has_box());
    assert_eq!(
        Bbox::from_rle(&rle([4, 4], &[u32::MAX - 1, 1])),
        bbox(1_073_741_823.0, 2.0, 0.0, 0.0)
    );
    // A run of the object without pixels is no object.
    assert!(rle([4, 4], &[0, 0, 16]).has_box());
    assert_eq!(Bbox::from_rle(&rle([4, 4], &[0, 0, 16])), bbox(0.0, 0.0, 0.0, 0.0));
    assert_eq!(Bbox::from_rle(&rle([4, 4], &[3, 0, 5, 2, 6])), bbox(2.0, 0.0, 0.0, 1.0));
    assert!(coco_rle([4, 4], "52203").has_box());
    assert!(!coco_rle([4, 4], "5`").has_box());
}

#[test]
fn bbox_of_compressed_run_lengths() {
    assert_eq!(Bbox::from_coco_rle(&coco_rle([4, 4], "52203")), bbox(1.0, 1.0, 1.0, 1.0));
    assert_eq!(
        Bbox::from_coco_rle(&coco_rle([40, 40], "e75S10000000ST1")),
        bbox(6.0, 5.0, 4.0, 4.0)
    );
}

#[test]
fn extent_of_polygons() {
    let polygons: Polygons = vec![numbers(&[1.5, 2.0, 3.0, 0.5]), numbers(&[-1.0, 7.0, 2.0, 3.0])];
    let expected = Extent {
        left: number(-1.0),
        right: number(3.0),
        top: number(0.5),
        bottom: number(7.0),
    };
    assert_eq!(extent(&polygons), expected);
    let with_size = PolygonsRS { size: vec![10, 10], counts: polygons };
    assert_eq!(with_size.extent(), expected);
}

#[test]
fn extent_of_polygons_from_a_file() {
    let polygons: Polygons =
        vec![numbers(&[510.66, 423.01, 511.72, 420.03, 510.45, 423.01, 510.03, 416.0])];
    let found = extent(&polygons);
    assert_eq!(f64::from_bits(found.left.to_bits()), 510.03);
    assert_eq!(f64::from_bits(found.right.to_bits()), 511.72);
    assert_eq!(f64::from_bits(found.top.to_bits()), 416.0);
    assert_eq!(f64::from_bits(found.bottom.to_bits()), 423.01);
}

#[test]
fn extent_without_corners() {
    let zero = Extent { left: number(0.0), right: number(0.0), top: number(0.0), bottom: number(0.0) };
    assert_eq!(extent(&Polygons::new()), zero);
    // An outline without corners counts as a corner at zero.
    let polygons: Polygons = vec![numbers(&[2.0, 3.0]), numbers(&[])];
    let found = extent(&polygons);
    assert_eq!(found.left, number(0.0));
    assert_eq!(found.right, number(2.0));
    assert_eq!(found.top, number(0.0));
    assert_eq!(found.bottom, number(3.0));
    // The last x of an odd number of coordinates is an x.
    let odd: Polygons = vec![numbers(&[2.0, 3.0, 9.0])];
    assert_eq!(extent(&odd).right, number(9.0));
    assert_eq!(extent(&odd).bottom, number(3.0));
}

#[test]
fn bbox_of_polygons() {
    let polygons: Polygons = vec![numbers(&[1.5, 2.0, 3.0, 0.5]), numbers(&[-1.0, 7.0, 2.0, 3.0])];
    assert_eq!(Bbox::from_polygons(&polygons), bbox(-1.0, 0.5, 4.0, 6.5));
    let with_size = PolygonsRS { size: vec![10, 10], counts: polygons };
    assert_eq!(Bbox::from_polygons_rs(&with_size), bbox(-1.0, 0.5, 4.0, 6.5));
}

#[test]
fn bbox_of_polygons_from_a_file() {
    let polygons: Polygons =
        vec![numbers(&[510.66, 423.01, 511.72, 420.03, 510.45, 423.01, 510.03, 416.0])];
    let expected = bbox(510.03, 416.0, 511.72 - 510.03, 423.01 - 416.0);
    assert_eq!(Bbox::from_polygons(&polygons), expected);
}

#[test]
fn bbox_of_no_polygons() {
    assert_eq!(Bbox::from_polygons(&Polygons::new()), bbox(0.0, 0.0, 0.0, 0.0));
}

#[test]
fn bbox_of_polygons_and_of_their_mask_agree() {
    let with_size = polygons_rs([8, 8], &[&[2.0, 1.0, 5.0, 1.0, 5.0, 4.0, 2.0, 4.0]]);
    let from_corners = Bbox::from_polygons_rs(&with_size);
    assert_eq!(from_corners, bbox(2.0, 1.0, 3.0, 3.0));
    assert!(with_size.is_countable());
    let rle = Rle::try_from_polygons(&with_size).unwrap();
    assert!(rle.has_box());
    let from_runs = Bbox::from_rle(&rle);
    assert_eq!(from_runs.left, from_corners.left);
    assert_eq!(from_runs.top, from_corners.top);
}
