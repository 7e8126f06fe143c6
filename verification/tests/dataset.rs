use cocotools::binary64::Binary64;
use cocotools::coco::object_detection::{
    Annotation, Bbox, Category, CocoRle, Dataset, Image, PolygonsRS, Rle, Segmentation,
};
use cocotools::errors::{LoadingError, MaskError, MissingIdError};
use cocotools::mask::conversions::{convert_coco_segmentation, Segmentation as Target};
use cocotools::COCO;

fn number(value: f64) -> Binary64 {
    Binary64::from_bits(value.to_bits())
}

fn numbers(values: &[f64]) -> Vec<Binary64> {
    values.iter().map(|v| number(*v)).collect()
}

fn image(id: u32, width: u32, height: u32, file_name: &str) -> Image {
    Image { id, width, height, file_name: file_name.to_string() }
}

fn category(id: u32, name: &str) -> Category {
    Category { id, name: name.to_string(), supercategory: "thing".to_string() }
}

fn annotation(id: u32, image_id: u32, segmentation: Segmentation) -> Annotation {
    Annotation {
        id,
        image_id,
        category_id: 1,
        segmentation,
        area: number(4.0),
        bbox: Bbox { left: number(1.0), top: number(1.0), width: number(1.5), height: number(2.0) },
        iscrowd: 0,
    }
}

fn square_rle() -> Segmentation {
    Segmentation::Rle(Rle { size: vec![4, 4], counts: vec![5, 2, 2, 2, 5] })
}

fn square_coco_rle() -> Segmentation {
    Segmentation::CocoRle(CocoRle { size: vec![4, 4], counts: "52203".to_string() })
}

fn square_outline() -> Vec<Vec<Binary64>> {
    vec![numbers(&[1.0, 1.0, 1.0, 2.0, 2.0, 2.0, 2.0, 1.0])]
}

fn square_polygons() -> Segmentation {
    Segmentation::PolygonsRS(PolygonsRS { size: vec![4, 4], counts: square_outline() })
}

fn sample() -> Dataset {
    Dataset {
        images: vec![image(1, 4, 4, "one.jpg"), image(2, 6, 4, "two.jpg"), image(3, 4, 4, "three.jpg")],
        annotations: vec![
            annotation(10, 1, square_rle()),
            annotation(11, 1, square_coco_rle()),
            annotation(12, 2, Segmentation::Polygons(square_outline())),
        ],
        categories: vec![category(1, "vase"), category(2, "cat")],
    }
}

fn loaded() -> COCO {
    COCO::new(sample(), "annotations.json", "images").unwrap()
}

#[test]
fn dataset_finds_by_id() {
    let dataset = loaded();
    assert_eq!(dataset.get_img(2).unwrap(), &image(2, 6, 4, "two.jpg"));
    assert_eq!(dataset.get_cat(2).unwrap(), &category(2, "cat"));
    assert_eq!(dataset.get_ann(10).unwrap(), &annotation(10, 1, square_rle()));
    assert_eq!(dataset.image_folder, "images");
    assert_eq!(dataset.folder(), "images");
}

#[test]
fn dataset_misses_ids() {
    let dataset = loaded();
    assert_eq!(dataset.get_img(7).unwrap_err(), MissingIdError::Image(7));
    assert_eq!(dataset.get_cat(7).unwrap_err(), MissingIdError::Category(7));
    assert_eq!(dataset.get_ann(7).unwrap_err(), MissingIdError::Annotation(7));
    assert_eq!(dataset.get_img_anns(7).unwrap_err(), MissingIdError::Image(7));
}

#[test]
fn dataset_gives_polygons_the_size_of_their_image() {
    let dataset = loaded();
    let expected = Segmentation::PolygonsRS(PolygonsRS { size: vec![4, 6], counts: square_outline() });
    assert_eq!(dataset.get_ann(12).unwrap().segmentation, expected);
    match &dataset.get_ann(12).unwrap().segmentation {
        Segmentation::PolygonsRS(polygons) => assert_eq!(polygons.size, vec![4, 6]),
        other => panic!("{other:?}"),
    }
}

#[test]
fn dataset_lists_everything() {
    let dataset = loaded();
    let mut images: Vec<u32> = dataset.get_imgs().iter().map(|i| i.id).collect();
    images.sort_unstable();
    assert_eq!(images, vec![1, 2, 3]);
    let mut categories: Vec<u32> = dataset.get_cats().iter().map(|c| c.id).collect();
    categories.sort_unstable();
    assert_eq!(categories, vec![1, 2]);
    let mut annotations: Vec<u32> = dataset.get_anns().iter().map(|a| a.id).collect();
    annotations.sort_unstable();
    assert_eq!(annotations, vec![10, 11, 12]);
    let mut ids = dataset.annotation_ids();
    ids.sort_unstable();
    assert_eq!(ids, vec![10, 11, 12]);
}

#[test]
fn dataset_lists_the_annotations_of_an_image() {
    let dataset = loaded();
    let mut of_one: Vec<u32> = dataset.get_img_anns(1).unwrap().iter().map(|a| a.id).collect();
    of_one.sort_unstable();
    assert_eq!(of_one, vec![10, 11]);
    let of_two: Vec<u32> = dataset.get_img_anns(2).unwrap().iter().map(|a| a.id).collect();
    assert_eq!(of_two, vec![12]);
    // An image without annotations has an empty list.
    assert!(dataset.get_img_anns(3).unwrap().is_empty());
}

#[test]
fn dataset_needs_the_image_of_polygons() {
    let mut dataset = sample();
    dataset.annotations.push(annotation(13, 77, Segmentation::Polygons(square_outline())));
    dataset.annotations.push(annotation(14, 78, Segmentation::Polygons(square_outline())));
    match COCO::new(dataset, "annotations.json", "images").unwrap_err() {
        LoadingError::Parsing(MissingIdError::Image(id), path) => {
            assert_eq!(id, 77);
            assert_eq!(path, "annotations.json");
        }
        other => panic!("{other:?}"),
    }
}

#[test]
fn dataset_takes_run_lengths_for_an_image_that_is_not_there() {
    let mut dataset = sample();
    dataset.annotations.push(annotation(13, 77, square_rle()));
    let dataset = COCO::new(dataset, "annotations.json", "images").unwrap();
    let listed: Vec<u32> = dataset.get_img_anns(77).unwrap().iter().map(|a| a.id).collect();
    assert_eq!(listed, vec![13]);
    assert_eq!(dataset.get_img(77).unwrap_err(), MissingIdError::Image(77));
}

#[test]
fn dataset_keeps_the_later_of_two_entries_with_one_id() {
    let mut dataset = sample();
    dataset.images.push(image(1, 9, 9, "later.jpg"));
    dataset.annotations.push(annotation(10, 2, square_coco_rle()));
    let dataset = COCO::new(dataset, "annotations.json", "images").unwrap();
    assert_eq!(dataset.get_img(1).unwrap().file_name, "later.jpg");
    assert_eq!(dataset.get_ann(10).unwrap().image_id, 2);
    assert_eq!(dataset.get_anns().len(), 3);
    // The annotation is still listed for the image that it was listed for first.
    let mut of_one: Vec<u32> = dataset.get_img_anns(1).unwrap().iter().map(|a| a.id).collect();
    of_one.sort_unstable();
    assert_eq!(of_one, vec![10, 11]);
}

#[test]
fn dataset_takes_another_annotation() {
    let mut dataset = loaded();
    dataset.add_ann(&annotation(20, 3, square_rle()));
    dataset.add_ann(&annotation(21, 9, square_rle()));
    dataset.add_ann(&annotation(10, 1, square_coco_rle()));
    assert_eq!(dataset.get_ann(20).unwrap(), &annotation(20, 3, square_rle()));
    assert_eq!(dataset.get_ann(10).unwrap().segmentation, square_coco_rle());
    assert_eq!(dataset.get_anns().len(), 5);
    let of_three: Vec<u32> = dataset.get_img_anns(3).unwrap().iter().map(|a| a.id).collect();
    assert_eq!(of_three, vec![20]);
    let of_nine: Vec<u32> = dataset.get_img_anns(9).unwrap().iter().map(|a| a.id).collect();
    assert_eq!(of_nine, vec![21]);
    assert_eq!(dataset.get_img_anns(1).unwrap().len(), 2);
}

#[test]
fn dataset_replaces_a_segmentation() {
    let mut dataset = loaded();
    dataset.replace_segmentation(10, square_coco_rle());
    assert_eq!(dataset.get_ann(10).unwrap(), &annotation(10, 1, square_coco_rle()));
    assert_eq!(dataset.get_ann(11).unwrap(), &annotation(11, 1, square_coco_rle()));
    assert_eq!(dataset.get_anns().len(), 3);
}

#[test]
fn dataset_goes_back_to_what_a_file_holds() {
    let dataset = loaded();
    let mut flat = Dataset::from_hashmap_dataset(&dataset);
    flat.images.sort_by_key(|i| i.id);
    flat.annotations.sort_by_key(|a| a.id);
    flat.categories.sort_by_key(|c| c.id);
    assert_eq!(flat, sample());
}

#[test]
fn copies_and_flat_forms() {
    let with_size = annotation(12, 2, square_polygons());
    assert_eq!(with_size.copy(), with_size);
    assert_eq!(with_size.flatten(), annotation(12, 2, Segmentation::Polygons(square_outline())));
    assert_eq!(square_rle().flatten(), square_rle());
    assert_eq!(square_coco_rle().copy(), square_coco_rle());
    assert_eq!(image(1, 2, 3, "a").copy(), image(1, 2, 3, "a"));
    assert_eq!(category(1, "a").copy(), category(1, "a"));
}

#[test]
fn convert_dataset_to_compressed_run_lengths() {
    let mut sample = sample();
    sample.images[1] = image(2, 4, 4, "two.jpg");
    let mut dataset = COCO::new(sample, "annotations.json", "images").unwrap();
    assert!(dataset.is_convertible(Target::CocoRle));
    convert_coco_segmentation(&mut dataset, Target::CocoRle).unwrap();
    for id in [10, 11, 12] {
        assert_eq!(dataset.get_ann(id).unwrap().segmentation, square_coco_rle());
    }
    convert_coco_segmentation(&mut dataset, Target::Rle).unwrap();
    for id in [10, 11, 12] {
        assert_eq!(dataset.get_ann(id).unwrap().segmentation, square_rle());
    }
    convert_coco_segmentation(&mut dataset, Target::Polygons).unwrap();
    for id in [10, 11, 12] {
        assert_eq!(dataset.get_ann(id).unwrap().segmentation, square_polygons());
    }
    assert_eq!(dataset.get_ann(12).unwrap().image_id, 2);
}

#[test]
fn convert_dataset_with_polygons_without_size() {
    let mut dataset = loaded();
    dataset.replace_segmentation(11, Segmentation::Polygons(square_outline()));
    assert!(dataset.is_convertible(Target::Rle));
    let error = convert_coco_segmentation(&mut dataset, Target::CocoRle).unwrap_err();
    assert!(matches!(error, MaskError::UnsupportedConversion));
    // Nothing was converted.
    assert_eq!(dataset.get_ann(10).unwrap().segmentation, square_rle());
    assert_eq!(dataset.get_ann(11).unwrap().segmentation, Segmentation::Polygons(square_outline()));
}

#[test]
fn convert_dataset_that_cannot_be_converted() {
    let mut sample = sample();
    sample.annotations.push(annotation(
        13,
        1,
        Segmentation::CocoRle(CocoRle { size: vec![4, 4], counts: "5`".to_string() }),
    ));
    let dataset = COCO::new(sample, "annotations.json", "images").unwrap();
    assert!(!dataset.is_convertible(Target::Rle));
    assert!(!dataset.is_convertible(Target::Polygons));
    assert!(dataset.is_convertible(Target::CocoRle));
}
