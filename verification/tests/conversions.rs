use cocotools::binary64::Binary64;
use cocotools::coco::object_detection::{self, CocoRle, Polygons, PolygonsRS, Rle};
use cocotools::errors::MaskError;
use cocotools::mask::conversions::{
    convert_segmentation, mask_from_poly, poly_from_mask, polygons_from_rle, Segmentation,
};
use cocotools::mask::Mask;

fn rle(size: [u32; 2], counts: &[u32]) -> Rle {
    Rle { size: size.to_vec(), counts: counts.to_vec() }
}

fn coco_rle(size: [u32; 2], counts: &str) -> CocoRle {
    CocoRle { size: size.to_vec(), counts: counts.to_string() }
}

fn numbers(values: &[f64]) -> Vec<Binary64> {
    values.iter().map(|v| Binary64::from_bits(v.to_bits())).collect()
}

fn polygons_rs(size: [u32; 2], outlines: &[&[f64]]) -> PolygonsRS {
    PolygonsRS { size: size.to_vec(), counts: outlines.iter().map(|o| numbers(o)).collect() }
}

fn mask(rows: &[&[u8]]) -> Mask {
    let width = rows[0].len();
    let data: Vec<u8> = rows.iter().flat_map(|r| r.iter().copied()).collect();
    Mask::from_shape_vec(rows.len(), width, data).unwrap()
}

fn square() -> Mask {
    mask(&[&[0, 0, 0, 0], &[0, 1, 1, 0], &[0, 1, 1, 0], &[0, 0, 0, 0]])
}

fn horizontal_line() -> Mask {
    mask(&[&[0, 0, 0, 0, 0], &[1, 1, 1, 1, 1], &[0, 0, 0, 0, 0], &[0, 0, 0, 0, 0]])
}

fn vertical_line() -> Mask {
    mask(&[&[0, 0, 1, 0, 0], &[0, 0, 1, 0, 0], &[0, 0, 1, 0, 0], &[0, 0, 1, 0, 0]])
}

fn thick_horizontal_line() -> Mask {
    mask(&[
        &[0, 0, 0, 0, 0, 0, 0],
        &[0, 0, 0, 0, 0, 0, 0],
        &[0, 1, 1, 1, 1, 1, 0],
        &[0, 1, 1, 1, 1, 1, 0],
        &[0, 1, 1, 1, 1, 1, 0],
        &[0, 0, 0, 0, 0, 0, 0],
        &[0, 0, 0, 0, 0, 0, 0],
    ])
}

fn thick_vertical_line() -> Mask {
    mask(&[
        &[0, 0, 0, 0, 0, 0, 0],
        &[0, 0, 1, 1, 1, 0, 0],
        &[0, 0, 1, 1, 1, 0, 0],
        &[0, 0, 1, 1, 1, 0, 0],
        &[0, 0, 1, 1, 1, 0, 0],
        &[0, 0, 1, 1, 1, 0, 0],
        &[0, 0, 0, 0, 0, 0, 0],
    ])
}

#[test]
fn encode_rle_square() {
    let encoded = CocoRle::try_from_rle(&rle([4, 4], &[5, 2, 2, 2, 5])).unwrap();
    assert_eq!(encoded, coco_rle([4, 4], "52203"));
}

#[test]
fn encode_rle_square2() {
    let encoded = CocoRle::try_from_rle(&rle([9, 10], &[6, 1, 40, 4, 5, 4, 5, 4, 21])).unwrap();
    assert_eq!(encoded, coco_rle([9, 10], "61X13mN000`0"));
}

#[test]
fn encode_rle_test1() {
    let encoded =
        CocoRle::try_from_rle(&rle([40, 40], &[245, 5, 35, 5, 35, 5, 35, 5, 35, 5, 1190])).unwrap();
    assert_eq!(encoded, coco_rle([40, 40], "e75S10000000ST1"));
}

#[test]
fn encode_rle_digits() {
    // 15 is one character, 16 needs two: '@' holds 16 with more to follow.
    assert_eq!(CocoRle::try_from_rle(&rle([1, 15], &[15])).unwrap().counts, "?");
    assert_eq!(CocoRle::try_from_rle(&rle([1, 16], &[16])).unwrap().counts, "`0");
    assert_eq!(CocoRle::try_from_rle(&rle([0, 0], &[])).unwrap().counts, "");
    assert_eq!(CocoRle::try_from_rle(&rle([1, 0], &[0])).unwrap().counts, "0");
    // The fourth run is written as its difference from the second: 1 - 3 = -2.
    assert_eq!(CocoRle::try_from_rle(&rle([1, 9], &[2, 3, 3, 1])).unwrap().counts, "233N");
}

#[test]
fn encode_rle_largest_run() {
    let encoded = CocoRle::try_from_rle(&rle([1, 1], &[u32::MAX, 0, 0, u32::MAX, 1])).unwrap();
    assert!(encoded.is_decodable());
    assert_eq!(Rle::from_coco_rle(&encoded).counts, vec![u32::MAX, 0, 0, u32::MAX, 1]);
}

#[test]
fn decode_rle_square() {
    assert_eq!(Rle::from_coco_rle(&coco_rle([4, 4], "52203")), rle([4, 4], &[5, 2, 2, 2, 5]));
}

#[test]
fn decode_rle_square2() {
    assert_eq!(
        Rle::from_coco_rle(&coco_rle([9, 10], "61X13mN000`0")),
        rle([9, 10], &[6, 1, 40, 4, 5, 4, 5, 4, 21])
    );
}

#[test]
fn decode_rle_test1() {
    assert_eq!(
        Rle::from_coco_rle(&coco_rle([40, 40], "e75S10000000ST1")),
        rle([40, 40], &[245, 5, 35, 5, 35, 5, 35, 5, 35, 5, 1190])
    );
}

#[test]
fn decode_trims_empty_runs_at_the_end() {
    assert_eq!(Rle::from_coco_rle(&coco_rle([1, 5], "500")).counts, vec![5]);
    assert_eq!(Rle::from_coco_rle(&coco_rle([0, 0], "")).counts, Vec::<u32>::new());
    assert_eq!(Rle::from_coco_rle(&coco_rle([0, 0], "0")).counts, Vec::<u32>::new());
}

#[test]
fn decode_refuses_what_holds_no_run_lengths() {
    // A difference that is not ended.
    assert!(!coco_rle([1, 1], "`").is_decodable());
    // A character outside the 64 of the code.
    assert!(!coco_rle([1, 1], "5 2").is_decodable());
    assert!(!coco_rle([1, 1], "5p").is_decodable());
    assert!(!coco_rle([1, 1], "é").is_decodable());
    // A run length under zero.
    assert!(!coco_rle([1, 1], "N").is_decodable());
    // Thirteen characters for one run.
    assert!(!coco_rle([1, 1], "PPPPPPPPPPPP0").is_decodable());
    assert!(coco_rle([1, 1], "PPPPPPPPPPP0").is_decodable());
    assert!(coco_rle([1, 1], "PPPPPPPPPPP0").decode().is_some());
    assert!(coco_rle([1, 1], "5p").decode().is_none());
    // A run longer than 32 bits hold.
    assert!(!coco_rle([1, 1], "oooooo4").is_decodable());
    assert!(coco_rle([1, 1], "oooooo3").is_decodable());
    assert_eq!(Rle::from_coco_rle(&coco_rle([1, 1], "oooooo3")).counts, vec![u32::MAX]);
}

fn pseudo_random(state: &mut u64) -> u64 {
    *state ^= *state << 13;
    *state ^= *state >> 7;
    *state ^= *state << 17;
    *state
}

#[test]
fn rle_decode_inverts_encode() {
    let mut state: u64 = 88_172_645_463_325_252;
    for _ in 0..300 {
        let runs = 2 + (pseudo_random(&mut state) % 18) as usize;
        let mut counts: Vec<u32> = Vec::new();
        for _ in 0..runs {
            counts.push(1 + (pseudo_random(&mut state) % 49) as u32);
        }
        let sum: u32 = counts.iter().sum();
        let width = 1 + (pseudo_random(&mut state) % u64::from(sum)) as u32;
        let height = sum / width + 1;
        *counts.last_mut().unwrap() += width * height - sum;
        let first = Rle { counts, size: vec![width, height] };
        let encoded = CocoRle::try_from_rle(&first).unwrap();
        assert!(encoded.is_decodable());
        assert_eq!(Rle::from_coco_rle(&encoded), first);
    }
}

#[test]
fn rle_decode_inverts_encode_of_large_runs() {
    let mut state: u64 = 7;
    for _ in 0..200 {
        let runs = 1 + (pseudo_random(&mut state) % 9) as usize;
        let mut counts: Vec<u32> = Vec::new();
        for _ in 0..runs {
            counts.push(pseudo_random(&mut state) as u32 | 1);
        }
        let first = Rle { counts, size: vec![1, 1] };
        let encoded = CocoRle::try_from_rle(&first).unwrap();
        assert_eq!(Rle::from_coco_rle(&encoded), first);
    }
}

#[test]
fn mask_to_rle_to_mask() {
    let mut state: u64 = 1_234_567;
    for _ in 0..60 {
        let ncols = 2 + (pseudo_random(&mut state) % 40) as usize;
        let nrows = 2 + (pseudo_random(&mut state) % 40) as usize;
        let data: Vec<u8> = (0..ncols * nrows).map(|_| (pseudo_random(&mut state) % 2) as u8).collect();
        let first = Mask::from_shape_vec(nrows, ncols, data).unwrap();
        let counts = Rle::from_mask(&first);
        assert_eq!(counts.size, vec![nrows as u32, ncols as u32]);
        assert_eq!(counts.counts.iter().sum::<u32>() as usize, nrows * ncols);
        assert_eq!(Mask::from_rle(&counts), first);
    }
}

#[test]
fn mask_to_rle_square() {
    assert_eq!(Rle::from_mask(&square()), rle([4, 4], &[5, 2, 2, 2, 5]));
}

#[test]
fn mask_to_rle_horizontal_line() {
    assert_eq!(
        Rle::from_mask(&horizontal_line()),
        rle([4, 5], &[1, 1, 3, 1, 3, 1, 3, 1, 3, 1, 2])
    );
}

#[test]
fn mask_to_rle_vertical_line() {
    assert_eq!(Rle::from_mask(&vertical_line()), rle([4, 5], &[8, 4, 8]));
}

#[test]
fn mask_to_rle_thick_horizontal_line() {
    assert_eq!(
        Rle::from_mask(&thick_horizontal_line()),
        rle([7, 7], &[9, 3, 4, 3, 4, 3, 4, 3, 4, 3, 9])
    );
}

#[test]
fn mask_to_rle_thick_vertical_line() {
    assert_eq!(Rle::from_mask(&thick_vertical_line()), rle([7, 7], &[15, 5, 2, 5, 2, 5, 15]));
}

#[test]
fn mask_to_rle_edge_cases() {
    // A mask that begins with the object has an empty first run.
    assert_eq!(Rle::from_mask(&mask(&[&[1, 0], &[1, 0]])), rle([2, 2], &[0, 2, 2]));
    assert_eq!(Rle::from_mask(&mask(&[&[0, 0], &[0, 0]])), rle([2, 2], &[4]));
    assert_eq!(Rle::from_mask(&mask(&[&[1, 1], &[1, 1]])), rle([2, 2], &[0, 4]));
    // The pixels are taken column by column.
    assert_eq!(Rle::from_mask(&mask(&[&[0, 1, 0], &[0, 0, 1]])), rle([2, 3], &[2, 1, 2, 1]));
    // Without pixels there is one empty run.
    assert_eq!(Rle::from_mask(&Mask::from_shape_vec(0, 3, vec![]).unwrap()), rle([0, 3], &[0]));
    // A run ends wherever the value changes.
    assert_eq!(Rle::from_mask(&mask(&[&[1, 2, 2, 0]])), rle([1, 4], &[0, 1, 2, 1]));
}

#[test]
fn rle_to_mask_square() {
    assert_eq!(Mask::from_rle(&rle([4, 4], &[5, 2, 2, 2, 5])), square());
}

#[test]
fn rle_to_mask_horizontal_line() {
    assert_eq!(
        Mask::from_rle(&rle([4, 5], &[1, 1, 3, 1, 3, 1, 3, 1, 3, 1, 2])),
        horizontal_line()
    );
}

#[test]
fn rle_to_mask_vertical_line() {
    assert_eq!(Mask::from_rle(&rle([4, 5], &[8, 4, 8])), vertical_line());
}

#[test]
fn rle_to_mask_short_runs_leave_background() {
    assert_eq!(Mask::from_rle(&rle([2, 2], &[1, 1])), mask(&[&[0, 0], &[1, 0]]));
    assert_eq!(Mask::from_rle(&rle([2, 2], &[])), mask(&[&[0, 0], &[0, 0]]));
}

#[test]
fn mask_cells_are_read_by_row_and_column() {
    let m = mask(&[&[0, 1, 0], &[0, 0, 1]]);
    assert_eq!(m.nrows(), 2);
    assert_eq!(m.ncols(), 3);
    assert_eq!(m.get(0, 1), 1);
    assert_eq!(m.get(1, 1), 0);
    assert_eq!(m.get(1, 2), 1);
    assert_eq!(m.cells(), vec![0, 0, 1, 0, 0, 1]);
    assert_eq!(Mask::from_cells(2, 3, vec![0, 0, 1, 0, 0, 1]).unwrap(), m);
}

#[test]
fn mask_of_the_wrong_number_of_pixels() {
    let error = Mask::from_shape_vec(2, 2, vec![0, 1, 0]).unwrap_err();
    assert!(matches!(error, MaskError::ImageToNDArrayConversion(_)));
    let error = Mask::from_cells(2, 2, vec![0, 1, 0, 1, 1]).unwrap_err();
    assert!(matches!(error, MaskError::ImageToNDArrayConversion(_)));
    assert!(Mask::from_shape_vec(usize::MAX, 2, vec![]).is_err());
}

#[test]
fn rle_to_poly_square() {
    let counts = rle([4, 4], &[5, 2, 2, 2, 5]);
    let poly = PolygonsRS { size: counts.size.clone(), counts: polygons_from_rle(&counts) };
    assert_eq!(poly, polygons_rs([4, 4], &[&[1.0, 1.0, 1.0, 2.0, 2.0, 2.0, 2.0, 1.0]]));
}

#[test]
fn rle_to_poly_horizontal_thick_line() {
    let counts = rle([7, 7], &[9, 3, 4, 3, 4, 3, 4, 3, 4, 3, 9]);
    let poly = PolygonsRS { size: counts.size.clone(), counts: polygons_from_rle(&counts) };
    assert_eq!(poly, polygons_rs([7, 7], &[&[1.0, 2.0, 1.0, 4.0, 5.0, 4.0, 5.0, 2.0]]));
}

#[test]
fn rle_to_poly_vertical_thick_line() {
    let counts = rle([7, 7], &[15, 5, 2, 5, 2, 5, 15]);
    let poly = PolygonsRS { size: counts.size.clone(), counts: polygons_from_rle(&counts) };
    assert_eq!(poly, polygons_rs([7, 7], &[&[2.0, 1.0, 2.0, 5.0, 4.0, 5.0, 4.0, 1.0]]));
}

#[test]
fn rle_to_poly_corners_only() {
    let poly = polygons_from_rle(&rle([4, 4], &[5, 2, 2, 2, 5]));
    assert_eq!(poly, vec![numbers(&[1.0, 1.0, 2.0, 1.0, 2.0, 2.0, 1.0, 2.0])]);
}

#[test]
fn rle_to_poly_of_a_wide_mask() {
    // Three rows and five columns, the object in rows 0 to 1 and columns 1 to 3.
    let m = mask(&[&[0, 1, 1, 1, 0], &[0, 1, 1, 1, 0], &[0, 0, 0, 0, 0]]);
    let poly = PolygonsRS::from_mask(&m);
    assert_eq!(poly, polygons_rs([3, 5], &[&[1.0, 0.0, 3.0, 0.0, 3.0, 1.0, 1.0, 1.0]]));
    assert_eq!(poly_from_mask(&m), poly.counts);
}

#[test]
fn rle_to_poly_drops_small_borders() {
    // A single pixel has a border of one point, and two objects have two borders.
    assert_eq!(polygons_from_rle(&rle([3, 3], &[4, 1, 4])), Polygons::new());
    assert_eq!(polygons_from_rle(&rle([3, 3], &[9])), Polygons::new());
    let two = mask(&[
        &[1, 1, 0, 0, 0, 0],
        &[1, 1, 0, 0, 0, 0],
        &[0, 0, 0, 0, 0, 0],
        &[0, 0, 0, 1, 1, 1],
        &[0, 0, 0, 1, 1, 1],
        &[0, 0, 0, 1, 1, 1],
    ]);
    assert_eq!(poly_from_mask(&two).len(), 2);
}

#[test]
fn rle_to_poly_to_rle_square() {
    let first = rle([4, 4], &[5, 2, 2, 2, 5]);
    let poly = polygons_from_rle(&first);
    let m = mask_from_poly(&poly, first.size[1], first.size[0]).unwrap();
    assert_eq!(Rle::from_mask(&m), first);
}

#[test]
fn rle_to_poly_to_rle_thick_horizontal_line() {
    let first = rle([7, 7], &[9, 3, 4, 3, 4, 3, 4, 3, 4, 3, 9]);
    let poly = polygons_from_rle(&first);
    let m = mask_from_poly(&poly, first.size[1], first.size[0]).unwrap();
    assert_eq!(Rle::from_mask(&m), first);
}

#[test]
fn rle_to_poly_to_rle_vertical_line() {
    let first = rle([7, 7], &[15, 5, 2, 5, 2, 5, 15]);
    let poly = polygons_from_rle(&first);
    let m = mask_from_poly(&poly, first.size[1], first.size[0]).unwrap();
    assert_eq!(Rle::from_mask(&m), first);
}

#[test]
fn rle_to_poly_of_a_thin_line() {
    // No border is found for a line of one pixel in width from edge to edge.
    let poly = polygons_from_rle(&rle([4, 5], &[8, 4, 8]));
    assert_eq!(poly, Polygons::new());
}

#[test]
fn rle_to_poly_to_rle_of_a_wide_mask() {
    let m = mask(&[&[0, 1, 1, 1, 0], &[0, 1, 1, 1, 0], &[0, 0, 0, 0, 0]]);
    let poly = PolygonsRS::from_mask(&m);
    assert_eq!(Mask::try_from_polygons(&poly).unwrap(), m);
    assert_eq!(Rle::try_from_polygons(&poly).unwrap(), Rle::from_mask(&m));
    assert_eq!(
        CocoRle::try_from_polygons(&poly).unwrap(),
        CocoRle::try_from_mask(&m).unwrap()
    );
}

#[test]
fn polygons_fill_one_mask_together() {
    let poly = polygons_rs(
        [6, 6],
        &[&[0.0, 0.0, 1.0, 0.0, 1.0, 1.0, 0.0, 1.0], &[3.2, 3.9, 5.0, 3.0, 5.0, 5.0, 3.0, 5.0, 3.0, 3.0]],
    );
    let expected = mask(&[
        &[1, 1, 0, 0, 0, 0],
        &[1, 1, 0, 0, 0, 0],
        &[0, 0, 0, 0, 0, 0],
        &[0, 0, 0, 1, 1, 1],
        &[0, 0, 0, 1, 1, 1],
        &[0, 0, 0, 1, 1, 1],
    ]);
    assert_eq!(Mask::try_from_polygons(&poly).unwrap(), expected);
}

#[test]
fn polygons_without_outlines_fill_nothing() {
    let poly = polygons_rs([2, 3], &[]);
    assert_eq!(Mask::try_from_polygons(&poly).unwrap(), mask(&[&[0, 0, 0], &[0, 0, 0]]));
    let empty = polygons_rs([0, 3], &[&[0.0, 0.0, 1.0, 0.0, 1.0, 1.0]]);
    assert_eq!(Mask::try_from_polygons(&empty).unwrap().nrows(), 0);
}

#[test]
fn mask_from_poly_fills_every_outline() {
    let poly: Polygons = vec![
        numbers(&[0.0, 0.0, 1.0, 0.0, 1.0, 1.0, 0.0, 1.0]),
        numbers(&[2.0, 2.0, 3.0, 2.0, 3.0, 3.0, 2.0, 3.0, 2.0, 2.0]),
    ];
    let m = mask_from_poly(&poly, 4, 4).unwrap();
    assert_eq!(m, mask(&[&[1, 1, 0, 0], &[1, 1, 0, 0], &[0, 0, 1, 1], &[0, 0, 1, 1]]));
    let sized = PolygonsRS { size: vec![4, 4], counts: poly };
    assert_eq!(Mask::try_from_polygons(&sized).unwrap(), m);
    // Without an outline the image stays background.
    let none = mask_from_poly(&Polygons::new(), 2, 3).unwrap();
    assert_eq!(none, mask(&[&[0, 0], &[0, 0], &[0, 0]]));
}

#[test]
fn mask_of_a_segmentation() {
    let counts = rle([4, 4], &[5, 2, 2, 2, 5]);
    let from_rle = Mask::try_from_segmentation(&object_detection::Segmentation::Rle(counts.copy()));
    assert_eq!(from_rle.unwrap(), square());
    let compressed = object_detection::Segmentation::CocoRle(coco_rle([4, 4], "52203"));
    assert_eq!(Mask::try_from_segmentation(&compressed).unwrap(), square());
    let poly = object_detection::Segmentation::PolygonsRS(polygons_rs(
        [4, 4],
        &[&[1.0, 1.0, 1.0, 2.0, 2.0, 2.0, 2.0, 1.0]],
    ));
    assert_eq!(Mask::try_from_segmentation(&poly).unwrap(), square());
}

#[test]
fn mask_of_polygons_without_size_fails() {
    let poly = object_detection::Segmentation::Polygons(vec![numbers(&[
        1.0, 1.0, 1.0, 2.0, 2.0, 2.0, 2.0, 1.0,
    ])]);
    let error = Mask::try_from_segmentation(&poly).unwrap_err();
    assert!(matches!(error, MaskError::UnsupportedConversion));
    for target in [Segmentation::Rle, Segmentation::CocoRle, Segmentation::Polygons] {
        let error = convert_segmentation(&poly, target).unwrap_err();
        assert!(matches!(error, MaskError::UnsupportedConversion));
    }
}

#[test]
fn convert_between_all_encodings() {
    let counts = || object_detection::Segmentation::Rle(rle([4, 4], &[5, 2, 2, 2, 5]));
    let compressed = || object_detection::Segmentation::CocoRle(coco_rle([4, 4], "52203"));
    let poly = || {
        object_detection::Segmentation::PolygonsRS(polygons_rs(
            [4, 4],
            &[&[1.0, 1.0, 1.0, 2.0, 2.0, 2.0, 2.0, 1.0]],
        ))
    };
    for source in [counts(), compressed(), poly()] {
        assert_eq!(convert_segmentation(&source, Segmentation::Rle).unwrap(), counts());
        assert_eq!(convert_segmentation(&source, Segmentation::CocoRle).unwrap(), compressed());
        assert_eq!(convert_segmentation(&source, Segmentation::Polygons).unwrap(), poly());
    }
}

#[test]
fn copies_are_equal() {
    let counts = rle([4, 4], &[5, 2, 2, 2, 5]);
    assert_eq!(counts.copy(), counts);
    let compressed = coco_rle([4, 4], "52203");
    assert_eq!(compressed.copy(), compressed);
    let poly = polygons_rs([4, 4], &[&[1.5, 1.0, 1.0, 2.25, 2.0, 2.0]]);
    assert_eq!(poly.copy().counts, poly.counts);
    assert_eq!(poly.copy().size, poly.size);
}

#[test]
fn run_lengths_of_a_mask_fit() {
    let m = mask(&[&[0, 1, 1, 1, 0], &[0, 1, 1, 1, 0], &[0, 0, 0, 0, 0]]);
    let counts = Rle::from_mask(&m);
    assert!(counts.fits());
    assert_eq!(Mask::from_rle(&counts), m);
}
