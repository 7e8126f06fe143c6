//! The dataset as the Python module offers it: what goes wrong is reported
//! as the kind of Python exception that is raised for it, with its message.
use crate::coco::object_detection::{
    annotation_views, category_views, image_views, listed, Annotation, AnnotationView, Category,
    CategoryView, Dataset, HashmapDataset, Image, ImageView,
};
use crate::errors::{parsing_text, CocoError, MissingIdError};
use crate::visualize::draw::{drawable, drawing_of, Drawing};
use vstd::prelude::*;

verus! {

/// The kinds of exception that are raised.
#[derive(Clone, Copy, Debug, PartialEq, Eq, Structural)]
pub enum PyErrKind {
    KeyError,
    ValueError,
}

/// An exception to raise.
#[derive(Clone, Debug, PartialEq, Eq)]
pub struct PyErr {
    pub kind: PyErrKind,
    pub message: String,
}

/// The exception is the `KeyError` for an id that is not in the dataset.
pub open spec fn is_key_error(error: PyErr, missing: MissingIdError) -> bool {
    error.kind == PyErrKind::KeyError && error.message@ == missing.text()
}

/// The `KeyError` for an id that is not in the dataset.
fn key_error(missing: MissingIdError) -> (error: PyErr)
    ensures
        is_key_error(error, missing),
{
    PyErr { kind: PyErrKind::KeyError, message: missing.message() }
}

/// The images as values.
pub open spec fn images_as_values(list: Seq<Image>) -> Seq<ImageView> {
    list.map_values(|i: Image| i@)
}

/// The categories as values.
pub open spec fn categories_as_values(list: Seq<Category>) -> Seq<CategoryView> {
    list.map_values(|c: Category| c@)
}

/// The annotations as values.
pub open spec fn annotations_as_values(list: Seq<Annotation>) -> Seq<AnnotationView> {
    list.map_values(|a: Annotation| a@)
}

/// Copies of the images, in their order.
fn image_copies(list: &Vec<&Image>) -> (copies: Vec<Image>)
    ensures
        images_as_values(copies@) == image_views(list@),
{
    let mut copies: Vec<Image> = Vec::new();
    let mut i: usize = 0;
    while i < list.len()
        invariant
            i <= list.len(),
            images_as_values(copies@) == image_views(list@).take(i as int),
        decreases list.len() - i,
    {
        let ghost before = copies@;
        let copy = list[i].copy();
        copies.push(copy);
        assert(images_as_values(copies@) =~= images_as_values(before).push(copy@));
        assert(image_views(list@)[i as int] == list[i as int]@);
        i = i + 1;
        assert(images_as_values(copies@) =~= image_views(list@).take(i as int));
    }
    assert(image_views(list@).take(i as int) =~= image_views(list@));
    copies
}

/// Copies of the categories, in their order.
fn category_copies(list: &Vec<&Category>) -> (copies: Vec<Category>)
    ensures
        categories_as_values(copies@) == category_views(list@),
{
    let mut copies: Vec<Category> = Vec::new();
    let mut i: usize = 0;
    while i < list.len()
        invariant
            i <= list.len(),
            categories_as_values(copies@) == category_views(list@).take(i as int),
        decreases list.len() - i,
    {
        let ghost before = copies@;
        let copy = list[i].copy();
        copies.push(copy);
        assert(categories_as_values(copies@) =~= categories_as_values(before).push(copy@));
        assert(category_views(list@)[i as int] == list[i as int]@);
        i = i + 1;
        assert(categories_as_values(copies@) =~= category_views(list@).take(i as int));
    }
    assert(category_views(list@).take(i as int) =~= category_views(list@));
    copies
}

/// Copies of the annotations, in their order.
fn annotation_copies(list: &Vec<&Annotation>) -> (copies: Vec<Annotation>)
    ensures
        annotations_as_values(copies@) == annotation_views(list@),
{
    let mut copies: Vec<Annotation> = Vec::new();
    let mut i: usize = 0;
    while i < list.len()
        invariant
            i <= list.len(),
            annotations_as_values(copies@) == annotation_views(list@).take(i as int),
        decreases list.len() - i,
    {
        let ghost before = copies@;
        let copy = list[i].copy();
        copies.push(copy);
        assert(annotations_as_values(copies@) =~= annotations_as_values(before).push(copy@));
        assert(annotation_views(list@)[i as int] == list[i as int]@);
        i = i + 1;
        assert(annotations_as_values(copies@) =~= annotation_views(list@).take(i as int));
    }
    assert(annotation_views(list@).take(i as int) =~= annotation_views(list@));
    copies
}

/// The dataset of the Python class `COCO`.
#[derive(Debug)]
pub struct PyCOCO(pub HashmapDataset);

impl PyCOCO {
    /// The dataset of what an annotation file holds. A file with an
    /// annotation for an image that it does not hold is a `ValueError`.
    pub fn new(dataset: Dataset, annotations_path: &str, image_folder_path: &str) -> (r: Result<
        PyCOCO,
        PyErr,
    >)
        ensures
            match r {
                Ok(made) => HashmapDataset::new_spec(dataset, image_folder_path@) == Some(made.0@),
                Err(error) => HashmapDataset::new_spec(dataset, image_folder_path@) is None
                    && error.kind == PyErrKind::ValueError && error.message@ == parsing_text(
                    annotations_path@,
                ),
            },
    {
        match HashmapDataset::new(dataset, annotations_path, image_folder_path) {
            Ok(made) => Ok(PyCOCO(made)),
            Err(error) => Err(PyErr { kind: PyErrKind::ValueError, message: error.message() }),
        }
    }

    /// The number of images of the dataset.
    pub fn len(&self) -> (n: usize)
        ensures
            n == self.0@.imgs.dom().len(),
    {
        let list = self.0.get_imgs();
        proof {
            let views = image_views(list@);
            let order = choose|order: Seq<u32>|
                {
                    &&& order.no_duplicates()
                    &&& order.to_set() == self.0@.imgs.dom()
                    &&& #[trigger] order.len() == views.len()
                    &&& forall|i: int|
                        0 <= i < views.len() ==> self.0@.imgs.contains_key(#[trigger] order[i])
                            && views[i] == self.0@.imgs[order[i]]
                };
            order.unique_seq_to_set();
        }
        list.len()
    }

    /// A copy of the annotation with the given id, or the `KeyError` for
    /// it.
    pub fn get_ann(&self, ann_id: u32) -> (r: Result<Annotation, PyErr>)
        ensures
            match r {
                Ok(annotation) => self.0@.anns.contains_key(ann_id) && annotation@
                    == self.0@.anns[ann_id],
                Err(error) => !self.0@.anns.contains_key(ann_id) && is_key_error(
                    error,
                    MissingIdError::Annotation(ann_id),
                ),
            },
    {
        match self.0.get_ann(ann_id) {
            Ok(annotation) => Ok(annotation.copy()),
            Err(error) => Err(key_error(error)),
        }
    }

    /// Copies of all the images of the dataset, in no particular order.
    pub fn get_imgs(&self) -> (list: Vec<Image>)
        ensures
            listed(images_as_values(list@), self.0@.imgs, self.0@.imgs.dom()),
    {
        image_copies(&self.0.get_imgs())
    }

    /// Copies of all the annotations of the dataset, in no particular order.
    pub fn get_anns(&self) -> (list: Vec<Annotation>)
        ensures
            listed(annotations_as_values(list@), self.0@.anns, self.0@.anns.dom()),
    {
        annotation_copies(&self.0.get_anns())
    }

    /// Copies of all the categories of the dataset, in no particular order.
    pub fn get_cats(&self) -> (list: Vec<Category>)
        ensures
            listed(categories_as_values(list@), self.0@.cats, self.0@.cats.dom()),
    {
        category_copies(&self.0.get_cats())
    }

    /// Copies of the annotations of the image with the given id, in no
    /// particular order, or the `KeyError` for the id that is not there: that
    /// of the image, or that of one of its annotations.
    pub fn get_img_anns(&self, img_id: u32) -> (r: Result<Vec<Annotation>, PyErr>)
        ensures
            match r {
                Ok(list) => self.0@.img_to_anns.contains_key(img_id) && listed(
                    annotations_as_values(list@),
                    self.0@.anns,
                    self.0@.img_to_anns[img_id],
                ),
                Err(error) => (is_key_error(error, MissingIdError::Image(img_id))
                    && !self.0@.img_to_anns.contains_key(img_id)) || (exists|id: u32|
                    #[trigger] is_key_error(error, MissingIdError::Annotation(id))
                        && self.0@.img_to_anns.contains_key(img_id)
                        && self.0@.img_to_anns[img_id].contains(id) && !self.0@.anns.contains_key(
                        id,
                    )),
            },
            self.0@.wf() && self.0@.img_to_anns.contains_key(img_id) ==> r is Ok,
    {
        match self.0.get_img_anns(img_id) {
            Ok(list) => Ok(annotation_copies(&list)),
            Err(missing) => {
                let error = key_error(missing);
                proof {
                    if let MissingIdError::Annotation(id) = missing {
                        assert(is_key_error(error, MissingIdError::Annotation(id)));
                    }
                }
                Err(error)
            },
        }
    }

    /// A copy of the image entry with the given id, or the `KeyError` for
    /// it.
    pub fn get_img(&self, img_id: u32) -> (r: Result<Image, PyErr>)
        ensures
            match r {
                Ok(image) => self.0@.imgs.contains_key(img_id) && image@ == self.0@.imgs[img_id],
                Err(error) => !self.0@.imgs.contains_key(img_id) && is_key_error(
                    error,
                    MissingIdError::Image(img_id),
                ),
            },
    {
        match self.0.get_img(img_id) {
            Ok(image) => Ok(image.copy()),
            Err(error) => Err(key_error(error)),
        }
    }

    /// A copy of the category with the given id, or the `KeyError` for it.
    pub fn get_cat(&self, cat_id: u32) -> (r: Result<Category, PyErr>)
        ensures
            match r {
                Ok(category) => self.0@.cats.contains_key(cat_id) && category@
                    == self.0@.cats[cat_id],
                Err(error) => !self.0@.cats.contains_key(cat_id) && is_key_error(
                    error,
                    MissingIdError::Category(cat_id),
                ),
            },
    {
        match self.0.get_cat(cat_id) {
            Ok(category) => Ok(category.copy()),
            Err(error) => Err(key_error(error)),
        }
    }

    /// What is shown for the image with the given id: its file and what is
    /// drawn over it for its annotations, bounding boxes included. An id that
    /// is not in the dataset is a `KeyError`, a segmentation without a mask a
    /// `ValueError`.
    pub fn visualize_img(&self, img_id: u32) -> (r: Result<Drawing, PyErr>)
        requires
            drawable(self.0@),
        ensures
            match r {
                Ok(drawing) => drawing_of(self.0@, img_id, true, Ok(drawing)),
                Err(error) => exists|cause: CocoError|
                    #[trigger] drawing_of(self.0@, img_id, true, Err(cause)) && raised_for(
                        error,
                        cause,
                    ),
            },
    {
        match self.0.draw_img_anns(img_id, true) {
            Ok(drawing) => Ok(drawing),
            Err(err) => {
                let error = match &err {
                    CocoError::MissingId(missing) => key_error(*missing),
                    CocoError::Mask(cause) => PyErr {
                        kind: PyErrKind::ValueError,
                        message: cause.message(),
                    },
                    CocoError::Loading(cause) => PyErr {
                        kind: PyErrKind::ValueError,
                        message: cause.message(),
                    },
                };
                assert(raised_for(error, err));
                Err(error)
            },
        }
    }
}

/// The exception is the one that is raised for the error: a `KeyError` for
/// an id that is not in the dataset, a `ValueError` for anything else, each
/// with the message of the error.
pub open spec fn raised_for(error: PyErr, cause: CocoError) -> bool {
    match cause {
        CocoError::MissingId(missing) => is_key_error(error, missing),
        _ => error.kind == PyErrKind::ValueError && error.message@ == cause.text(),
    }
}

} // verus!
