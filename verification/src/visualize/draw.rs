//! What is drawn over an image for its annotations: for each annotation a
//! rectangle for its bounding box and its mask. Colours are chosen, and pixels
//! are blended, where the image is at hand.
use crate::binary64::{clamp, Binary64};
use crate::coco::object_detection::{
    annotation_views, Annotation, AnnotationView, Bbox, HashmapDataset, HashmapDatasetView,
};
use crate::errors::{CocoError, MaskError, MissingIdError};
use crate::mask::conversions::{mask_of_segmentation, segmentation_fits};
use crate::mask::Mask;
use vstd::prelude::*;

verus! {

/// A rectangle of whole pixels.
#[derive(Clone, Copy, Debug, PartialEq, Eq, Structural)]
pub struct Rect {
    pub left: i32,
    pub top: i32,
    pub width: u32,
    pub height: u32,
}

/// What is drawn for one annotation.
#[derive(Debug, PartialEq, Eq)]
pub struct Overlay {
    /// The outline of the bounding box, where it is drawn.
    pub rect: Option<Rect>,
    pub mask: Mask,
}

/// What is drawn for one image: the file of the image, and what is laid over
/// it for each of its annotations.
#[derive(Debug, PartialEq, Eq)]
pub struct Drawing {
    pub image_folder: String,
    pub file_name: String,
    pub overlays: Vec<Overlay>,
}

/// The number is greater than zero.
pub open spec fn positive(x: Binary64) -> bool {
    !x.is_nan() && !x.negative() && x.bits != 0
}

/// The number as a whole number of 32 bits, rounded toward zero.
pub open spec fn whole(x: Binary64) -> int {
    clamp(x.truncated(), i32::MIN as int, i32::MAX as int)
}

/// The number as a whole number of 32 bits that is not negative, rounded
/// toward zero.
pub open spec fn whole_size(x: Binary64) -> int {
    clamp(x.truncated(), 0, u32::MAX as int)
}

/// The rectangle that is drawn for a bounding box: none for a box without
/// width or height, or of less than a pixel.
pub open spec fn rect_of(bbox: Bbox) -> Option<Rect> {
    if positive(bbox.width) && positive(bbox.height) && whole_size(bbox.width) > 0 && whole_size(
        bbox.height,
    ) > 0 {
        Some(
            Rect {
                left: whole(bbox.left) as i32,
                top: whole(bbox.top) as i32,
                width: whole_size(bbox.width) as u32,
                height: whole_size(bbox.height) as u32,
            },
        )
    } else {
        None
    }
}

/// Whether the number is greater than zero.
fn is_positive(x: Binary64) -> (r: bool)
    ensures
        r == positive(x),
{
    !x.nan() && x.bits < crate::binary64::SIGN_BIT && x.bits != 0
}

/// The rectangle that is drawn for a bounding box.
pub fn bbox(bounds: &Bbox) -> (r: Option<Rect>)
    ensures
        r == rect_of(*bounds),
{
    if is_positive(bounds.width) && is_positive(bounds.height) {
        let width = bounds.width.to_u32();
        let height = bounds.height.to_u32();
        if width > 0 && height > 0 {
            return Some(Rect { left: bounds.left.to_i32(), top: bounds.top.to_i32(), width, height });
        }
    }
    None
}

/// What is drawn for the annotation is its mask, and the rectangle of its
/// bounding box where the boxes are drawn.
pub open spec fn overlay_of(overlay: Overlay, annotation: AnnotationView, draw_bbox: bool) -> bool {
    &&& overlay.mask@ == mask_of_segmentation(annotation.segmentation)
    &&& overlay.rect == if draw_bbox {
        rect_of(annotation.bbox)
    } else {
        None
    }
}

/// What is drawn for the annotations, one after the other: their masks, and
/// their bounding boxes if `draw_bbox` is set. Nothing is drawn where an
/// annotation holds polygons without a size.
pub fn anns(annotations: &Vec<&Annotation>, draw_bbox: bool) -> (r: Result<Vec<Overlay>, MaskError>)
    requires
        forall|i: int| 0 <= i < annotations.len() ==> segmentation_fits((#[trigger] annotations[i])@.segmentation),
    ensures
        match r {
            Ok(overlays) => {
                &&& overlays.len() == annotations.len()
                &&& forall|i: int|
                    0 <= i < annotations.len() ==> overlay_of(
                        #[trigger] overlays[i],
                        annotations[i]@,
                        draw_bbox,
                    )
                &&& forall|i: int|
                    0 <= i < annotations.len() ==> !((
                    #[trigger] annotations[i])@.segmentation is Polygons)
            },
            Err(error) => error is UnsupportedConversion && exists|i: int|
                0 <= i < annotations.len() && (#[trigger] annotations[i])@.segmentation is Polygons,
        },
{
    let mut overlays: Vec<Overlay> = Vec::new();
    let mut i: usize = 0;
    while i < annotations.len()
        invariant
            i <= annotations.len(),
            overlays.len() == i,
            forall|h: int|
                0 <= h < annotations.len() ==> segmentation_fits((#[trigger] annotations[h])@.segmentation),
            forall|h: int|
                0 <= h < i ==> overlay_of(#[trigger] overlays[h], annotations[h]@, draw_bbox),
            forall|h: int| 0 <= h < i ==> !((#[trigger] annotations[h])@.segmentation is Polygons),
        decreases annotations.len() - i,
    {
        let ann = annotations[i];
        assert(segmentation_fits(annotations[i as int]@.segmentation));
        let rect = if draw_bbox {
            bbox(&ann.bbox)
        } else {
            None
        };
        let mask = match Mask::try_from_segmentation(&ann.segmentation) {
            Ok(mask) => mask,
            Err(error) => {
                return Err(error);
            },
        };
        let ghost before = overlays@;
        let overlay = Overlay { rect, mask };
        assert(overlay_of(overlay, annotations[i as int]@, draw_bbox));
        overlays.push(overlay);
        assert forall|h: int| 0 <= h < i + 1 implies overlay_of(
            #[trigger] overlays[h],
            annotations[h]@,
            draw_bbox,
        ) by {
            if h < i {
                assert(overlays[h] == before[h]);
            }
        }
        i = i + 1;
    }
    Ok(overlays)
}

/// The pixel `0RGB` of a window for one pixel of an image.
pub open spec fn packed(red: u8, green: u8, blue: u8) -> u32 {
    0xFF00_0000u32 | ((red as u32) << 16) | ((green as u32) << 8) | (blue as u32)
}

/// The pixels of a window for the pixels of an image that are given as the
/// red, green and blue values of one pixel after the other.
pub fn to_buffer(rgb: &Vec<u8>) -> (buffer: Vec<u32>)
    requires
        rgb.len() % 3 == 0,
    ensures
        buffer.len() == rgb.len() / 3,
        forall|i: int|
            0 <= i < buffer.len() ==> #[trigger] buffer[i] == packed(
                rgb[3 * i],
                rgb[3 * i + 1],
                rgb[3 * i + 2],
            ),
{
    let mut buffer: Vec<u32> = Vec::new();
    let mut i: usize = 0;
    while i < rgb.len()
        invariant
            rgb.len() % 3 == 0,
            i % 3 == 0,
            i <= rgb.len(),
            buffer.len() == i / 3,
            forall|h: int|
                0 <= h < buffer.len() ==> #[trigger] buffer[h] == packed(
                    rgb[3 * h],
                    rgb[3 * h + 1],
                    rgb[3 * h + 2],
                ),
        decreases rgb.len() - i,
    {
        // Convert pixel to 0RGB
        let raw = 0xFF00_0000u32 | ((rgb[i] as u32) << 16) | ((rgb[i + 1] as u32) << 8) | (rgb[i
            + 2] as u32);
        buffer.push(raw);
        i = i + 3;
    }
    buffer
}

/// Every segmentation of the dataset can be turned into a mask.
pub open spec fn drawable(dataset: HashmapDatasetView) -> bool {
    forall|id: u32|
        dataset.anns.contains_key(id) ==> segmentation_fits(
            (#[trigger] dataset.anns[id]).segmentation,
        )
}

/// The overlays are those of the annotations with the given ids, of each
/// once, in some order.
pub open spec fn overlays_of(
    overlays: Seq<Overlay>,
    dataset: HashmapDatasetView,
    ids: Set<u32>,
    draw_bbox: bool,
) -> bool {
    exists|order: Seq<u32>|
        {
            &&& order.no_duplicates()
            &&& order.to_set() == ids
            &&& #[trigger] order.len() == overlays.len()
            &&& forall|i: int|
                0 <= i < overlays.len() ==> overlay_of(
                    #[trigger] overlays[i],
                    dataset.anns[order[i]],
                    draw_bbox,
                )
        }
}

/// What `draw_img_anns` gives for the image: what is to be drawn, or the
/// error that tells why nothing is.
pub open spec fn drawing_of(
    dataset: HashmapDatasetView,
    img_id: u32,
    draw_bbox: bool,
    r: Result<Drawing, CocoError>,
) -> bool {
    match r {
        Ok(drawing) => {
            &&& dataset.imgs.contains_key(img_id)
            &&& dataset.img_to_anns.contains_key(img_id)
            &&& drawing.image_folder@ == dataset.image_folder
            &&& drawing.file_name@ == dataset.imgs[img_id].file_name
            &&& overlays_of(drawing.overlays@, dataset, dataset.img_to_anns[img_id], draw_bbox)
        },
        Err(CocoError::MissingId(MissingIdError::Image(id))) => id == img_id && !(
        dataset.imgs.contains_key(img_id) && dataset.img_to_anns.contains_key(img_id)),
        Err(CocoError::MissingId(MissingIdError::Annotation(id))) => {
            &&& dataset.img_to_anns.contains_key(img_id)
            &&& dataset.img_to_anns[img_id].contains(id)
            &&& !dataset.anns.contains_key(id)
        },
        Err(CocoError::Mask(error)) => {
            &&& error is UnsupportedConversion
            &&& dataset.img_to_anns.contains_key(img_id)
            &&& exists|id: u32|
                #[trigger] dataset.img_to_anns[img_id].contains(id) && dataset.anns.contains_key(id)
                    && dataset.anns[id].segmentation is Polygons
        },
        Err(_) => false,
    }
}

/// What `draw_ann` gives for the annotation: what is to be drawn, or the
/// error that tells why nothing is.
pub open spec fn drawing_of_one(
    dataset: HashmapDatasetView,
    annotation: AnnotationView,
    draw_bbox: bool,
    r: Result<Drawing, CocoError>,
) -> bool {
    match r {
        Ok(drawing) => {
            &&& dataset.imgs.contains_key(annotation.image_id)
            &&& !(annotation.segmentation is Polygons)
            &&& drawing.image_folder@ == dataset.image_folder
            &&& drawing.file_name@ == dataset.imgs[annotation.image_id].file_name
            &&& drawing.overlays.len() == 1
            &&& overlay_of(drawing.overlays[0], annotation, draw_bbox)
        },
        Err(CocoError::MissingId(missing)) => missing == MissingIdError::Image(annotation.image_id)
            && !dataset.imgs.contains_key(annotation.image_id),
        Err(CocoError::Mask(error)) => {
            &&& error is UnsupportedConversion
            &&& dataset.imgs.contains_key(annotation.image_id)
            &&& annotation.segmentation is Polygons
        },
        Err(_) => false,
    }
}

impl HashmapDataset {
    /// What is to be drawn for one annotation: the file of its image, and
    /// its mask, with its bounding box if `draw_bbox` is set. The annotation
    /// need not be one of the dataset; its image is.
    pub fn draw_ann(&self, ann: &Annotation, draw_bbox: bool) -> (r: Result<Drawing, CocoError>)
        requires
            segmentation_fits(ann@.segmentation),
        ensures
            drawing_of_one(self@, ann@, draw_bbox, r),
    {
        let file_name = match self.get_img(ann.image_id) {
            Ok(image) => image.file_name.clone(),
            Err(error) => {
                return Err(CocoError::MissingId(error));
            },
        };
        let mut annotations: Vec<&Annotation> = Vec::new();
        annotations.push(ann);
        match anns(&annotations, draw_bbox) {
            Ok(overlays) => {
                assert(annotations[0]@ == ann@);
                Ok(Drawing { image_folder: self.folder().clone(), file_name, overlays })
            },
            Err(error) => {
                proof {
                    let i = choose|i: int|
                        0 <= i < annotations.len() && (
                        #[trigger] annotations[i])@.segmentation is Polygons;
                    assert(annotations[i]@ == ann@);
                }
                Err(CocoError::Mask(error))
            },
        }
    }
}

impl HashmapDataset {
    /// Whether every segmentation of the dataset can be turned into a mask.
    pub fn is_drawable(&self) -> (r: bool)
        ensures
            r == drawable(self@),
    {
        let ids = self.annotation_ids();
        let mut i: usize = 0;
        while i < ids.len()
            invariant
                i <= ids.len(),
                ids@.to_set() == self@.anns.dom(),
                forall|h: int|
                    0 <= h < i ==> segmentation_fits(self@.anns[#[trigger] ids[h]].segmentation),
            decreases ids.len() - i,
        {
            assert(ids@.to_set().contains(ids[i as int]));
            let ann = match self.get_ann(ids[i]) {
                Ok(ann) => ann,
                Err(_) => vstd::pervasive::unreached(),
            };
            if !ann.segmentation.fits() {
                return false;
            }
            i = i + 1;
        }
        proof {
            assert forall|id: u32| self@.anns.contains_key(id) implies segmentation_fits(
                (#[trigger] self@.anns[id]).segmentation,
            ) by {
                assert(ids@.to_set().contains(id));
                let h = choose|h: int| 0 <= h < ids.len() && ids[h] == id;
                assert(segmentation_fits(self@.anns[ids[h]].segmentation));
            }
        }
        true
    }

    /// What is to be drawn for the image with the given id: its file, and
    /// the masks of its annotations, with their bounding boxes if `draw_bbox`
    /// is set.
    pub fn draw_img_anns(&self, img_id: u32, draw_bbox: bool) -> (r: Result<Drawing, CocoError>)
        requires
            drawable(self@),
        ensures
            drawing_of(self@, img_id, draw_bbox, r),
    {
        let file_name = match self.get_img(img_id) {
            Ok(image) => image.file_name.clone(),
            Err(error) => {
                return Err(CocoError::MissingId(error));
            },
        };
        let annotations = match self.get_img_anns(img_id) {
            Ok(annotations) => annotations,
            Err(error) => {
                return Err(CocoError::MissingId(error));
            },
        };
        let ghost views = annotation_views(annotations@);
        let ghost ids = self@.img_to_anns[img_id];
        let ghost order = choose|order: Seq<u32>|
            {
                &&& order.no_duplicates()
                &&& order.to_set() == ids
                &&& #[trigger] order.len() == views.len()
                &&& forall|i: int|
                    0 <= i < views.len() ==> self@.anns.contains_key(#[trigger] order[i])
                        && views[i] == self@.anns[order[i]]
            };
        proof {
            assert forall|i: int| 0 <= i < annotations.len() implies segmentation_fits(
                (#[trigger] annotations[i])@.segmentation,
            ) by {
                assert(views[i] == self@.anns[order[i]]);
                assert(order.to_set().contains(order[i]));
            }
        }
        match anns(&annotations, draw_bbox) {
            Ok(overlays) => {
                proof {
                    assert forall|i: int| 0 <= i < overlays.len() implies overlay_of(
                        #[trigger] overlays[i],
                        self@.anns[order[i]],
                        draw_bbox,
                    ) by {
                        assert(views[i] == self@.anns[order[i]]);
                    }
                    assert(overlays_of(overlays@, self@, ids, draw_bbox));
                }
                Ok(Drawing { image_folder: self.folder().clone(), file_name, overlays })
            },
            Err(error) => {
                proof {
                    let i = choose|i: int|
                        0 <= i < annotations.len() && (
                        #[trigger] annotations[i])@.segmentation is Polygons;
                    assert(views[i] == self@.anns[order[i]]);
                    assert(order.to_set().contains(order[i]));
                    assert(ids.contains(order[i]));
                }
                Err(CocoError::Mask(error))
            },
        }
    }
}

} // verus!
