//! The structs of a dataset for object detection in the COCO format.
use crate::binary64::Binary64;
use crate::errors::{LoadingError, MissingIdError};
use std::collections::HashMap;
use std::collections::HashSet;
use vstd::prelude::*;

verus! {

/// Information on one image.
#[derive(Clone, Debug, PartialEq, Eq)]
pub struct Image {
    pub id: u32,
    pub width: u32,
    pub height: u32,
    pub file_name: String,
}

/// Category of an annotation.
#[derive(Clone, Debug, PartialEq, Eq)]
pub struct Category {
    pub id: u32,
    pub name: String,
    pub supercategory: String,
}

/// Bounding box enclosing an object: `[left, top, width, height]`, measured
/// in pixels from the top left corner of the image.
#[derive(Clone, Copy, Debug, PartialEq, Eq, Structural)]
pub struct Bbox {
    pub left: Binary64,
    pub top: Binary64,
    pub width: Binary64,
    pub height: Binary64,
}

/// Segmentation mask as run lengths over the pixels in column-major order.
///
/// The runs alternate between background and foreground; the first run is
/// background and may be empty.
#[derive(Clone, Debug, PartialEq, Eq)]
pub struct Rle {
    /// The height and the width of the image.
    pub size: Vec<u32>,
    pub counts: Vec<u32>,
}

/// Run lengths that are further compressed into a string.
#[derive(Clone, Debug, PartialEq, Eq)]
pub struct CocoRle {
    /// The height and the width of the image.
    pub size: Vec<u32>,
    pub counts: String,
}

/// Polygons outlining a segmentation mask.
///
/// Each inner vector is one closed outline: the coordinates of its points,
/// `x` before `y`, so that its length is even.
pub type Polygons = Vec<Vec<Binary64>>;

/// Polygons together with the size of the image that they lie on.
///
/// Two of them are equal where they have the same size and as many outlines,
/// and each outline of the first is an outline of the second, whatever the
/// point that it begins with and the direction in which it runs.
#[derive(Clone, Debug)]
pub struct PolygonsRS {
    /// The height and the width of the image.
    pub size: Vec<u32>,
    /// See [`Polygons`].
    pub counts: Polygons,
}

/// The segmentation of an annotation, in one of its encodings.
///
/// An annotation file holds polygons without the size of the image
/// (`Polygons`); a loaded dataset holds them with it (`PolygonsRS`).
#[derive(Clone, Debug, PartialEq)]
pub enum Segmentation {
    Rle(Rle),
    CocoRle(CocoRle),
    Polygons(Polygons),
    PolygonsRS(PolygonsRS),
}

/// An annotation of one object in an image.
#[derive(Clone, Debug, PartialEq)]
pub struct Annotation {
    pub id: u32,
    pub image_id: u32,
    pub category_id: u32,
    /// In an annotation file: polygons, run lengths or compressed run
    /// lengths.
    pub segmentation: Segmentation,
    pub area: Binary64,
    /// The bounding box: `[left, top, width, height]`.
    pub bbox: Bbox,
    /// Either 1 or 0.
    pub iscrowd: u32,
}

/// A dataset as an annotation file holds it.
#[derive(Clone, Debug, PartialEq)]
pub struct Dataset {
    pub images: Vec<Image>,
    pub annotations: Vec<Annotation>,
    pub categories: Vec<Category>,
}

/// A dataset with its images, annotations and categories found by their
/// ids, and the annotations of each image by the id of the image.
#[derive(Debug)]
pub struct HashmapDataset {
    pub(crate) anns: HashMap<u32, Annotation>,
    pub(crate) cats: HashMap<u32, Category>,
    pub(crate) imgs: HashMap<u32, Image>,
    /// The ids of the annotations of each image.
    pub(crate) img_to_anns: HashMap<u32, HashSet<u32>>,
    pub image_folder: String,
}

/// The outlines of `polygons`, each as the sequence of its coordinates.
pub open spec fn outlines(polygons: Polygons) -> Seq<Seq<Binary64>> {
    polygons@.map_values(|outline: Vec<Binary64>| outline@)
}

/// Run lengths as sequences.
pub struct RleView {
    pub size: Seq<u32>,
    pub counts: Seq<u32>,
}

/// Compressed run lengths: the size as a sequence, the text as its characters.
pub struct CocoRleView {
    pub size: Seq<u32>,
    pub counts: Seq<char>,
}

/// Polygons with a size, as sequences.
pub struct PolygonsRSView {
    pub size: Seq<u32>,
    pub counts: Seq<Seq<Binary64>>,
}

/// A segmentation, as the view of its encoding.
pub enum SegmentationView {
    Rle(RleView),
    CocoRle(CocoRleView),
    Polygons(Seq<Seq<Binary64>>),
    PolygonsRS(PolygonsRSView),
}

/// An image entry, its file name as characters.
pub struct ImageView {
    pub id: u32,
    pub width: u32,
    pub height: u32,
    pub file_name: Seq<char>,
}

/// A category, its names as characters.
pub struct CategoryView {
    pub id: u32,
    pub name: Seq<char>,
    pub supercategory: Seq<char>,
}

/// An annotation, with the view of its segmentation.
pub struct AnnotationView {
    pub id: u32,
    pub image_id: u32,
    pub category_id: u32,
    pub segmentation: SegmentationView,
    pub area: Binary64,
    pub bbox: Bbox,
    pub iscrowd: u32,
}

/// A dataset as maps from ids to the views of what it holds, and from the
/// id of an image to the set of the ids of its annotations.
pub struct HashmapDatasetView {
    pub anns: Map<u32, AnnotationView>,
    pub cats: Map<u32, CategoryView>,
    pub imgs: Map<u32, ImageView>,
    pub img_to_anns: Map<u32, Set<u32>>,
    pub image_folder: Seq<char>,
}

impl View for Image {
    type V = ImageView;

    open spec fn view(&self) -> ImageView {
        ImageView {
            id: self.id,
            width: self.width,
            height: self.height,
            file_name: self.file_name@,
        }
    }
}

impl View for Category {
    type V = CategoryView;

    open spec fn view(&self) -> CategoryView {
        CategoryView { id: self.id, name: self.name@, supercategory: self.supercategory@ }
    }
}

impl View for Annotation {
    type V = AnnotationView;

    open spec fn view(&self) -> AnnotationView {
        AnnotationView {
            id: self.id,
            image_id: self.image_id,
            category_id: self.category_id,
            segmentation: self.segmentation@,
            area: self.area,
            bbox: self.bbox,
            iscrowd: self.iscrowd,
        }
    }
}

impl View for HashmapDataset {
    type V = HashmapDatasetView;

    closed spec fn view(&self) -> HashmapDatasetView {
        HashmapDatasetView {
            anns: self.anns@.map_values(|a: Annotation| a@),
            cats: self.cats@.map_values(|c: Category| c@),
            imgs: self.imgs@.map_values(|i: Image| i@),
            img_to_anns: self.img_to_anns@.map_values(|s: HashSet<u32>| s@),
            image_folder: self.image_folder@,
        }
    }
}

impl View for Rle {
    type V = RleView;

    open spec fn view(&self) -> RleView {
        RleView { size: self.size@, counts: self.counts@ }
    }
}

impl View for CocoRle {
    type V = CocoRleView;

    open spec fn view(&self) -> CocoRleView {
        CocoRleView { size: self.size@, counts: self.counts@ }
    }
}

impl View for PolygonsRS {
    type V = PolygonsRSView;

    open spec fn view(&self) -> PolygonsRSView {
        PolygonsRSView { size: self.size@, counts: outlines(self.counts) }
    }
}

impl View for Segmentation {
    type V = SegmentationView;

    open spec fn view(&self) -> SegmentationView {
        match self {
            Segmentation::Rle(rle) => SegmentationView::Rle(rle@),
            Segmentation::CocoRle(coco_rle) => SegmentationView::CocoRle(coco_rle@),
            Segmentation::Polygons(polygons) => SegmentationView::Polygons(outlines(*polygons)),
            Segmentation::PolygonsRS(polygons) => SegmentationView::PolygonsRS(polygons@),
        }
    }
}

/// The place in an outline of `n` coordinates that is held against place
/// `i` of another, where the outline is taken `k` places further on, and
/// with its points in reverse order where `mirror` is set.
pub open spec fn place(n: int, i: int, k: int, mirror: bool) -> int {
    let t = (i + k) % n;
    if !mirror {
        t
    } else if t % 2 == 0 {
        n - 2 - t
    } else {
        n - t
    }
}

/// The outline `a` is the outline `b`, taken `k` places further on, and with
/// its points in reverse order where `mirror` is set.
pub open spec fn agrees(a: Seq<Binary64>, b: Seq<Binary64>, k: int, mirror: bool) -> bool {
    forall|i: int|
        0 <= i < a.len() ==> (#[trigger] a[i]).same_value(b[place(a.len() as int, i, k, mirror)])
}

/// The two outlines are the same closed line: they have as many coordinates,
/// and one is the other begun at another point, in the same direction or in
/// the opposite one. The shift `k` is one by whole points, so that no `x`
/// comes to stand for a `y`; an outline whose coordinates do not come in
/// pairs is only itself. An outline without coordinates is no line.
pub open spec fn same_outline(a: Seq<Binary64>, b: Seq<Binary64>) -> bool {
    &&& a.len() == b.len()
    &&& exists|k: int, mirror: bool|
        0 <= k < a.len() && k % 2 == 0 && (a.len() % 2 != 0 ==> k == 0 && !mirror) && #[trigger] agrees(
            a,
            b,
            k,
            mirror,
        )
}

/// The outline is among the outlines.
pub open spec fn outline_among(a: Seq<Binary64>, others: Seq<Seq<Binary64>>) -> bool {
    exists|j: int| 0 <= j < others.len() && same_outline(a, #[trigger] others[j])
}

/// What `==` means for polygons with a size.
pub open spec fn same_polygons(p: PolygonsRSView, q: PolygonsRSView) -> bool {
    &&& p.size == q.size
    &&& p.counts.len() == q.counts.len()
    &&& forall|i: int| 0 <= i < p.counts.len() ==> outline_among(#[trigger] p.counts[i], q.counts)
}

/// Whether the two vectors hold the same numbers.
pub fn same_numbers(a: &Vec<u32>, b: &Vec<u32>) -> (r: bool)
    ensures
        r == (a@ == b@),
{
    if a.len() != b.len() {
        return false;
    }
    let mut i: usize = 0;
    while i < a.len()
        invariant
            a.len() == b.len(),
            i <= a.len(),
            forall|k: int| 0 <= k < i ==> a[k] == b[k],
        decreases a.len() - i,
    {
        if a[i] != b[i] {
            return false;
        }
        i = i + 1;
    }
    assert(a@ =~= b@);
    true
}

/// Whether `a` is `b`, taken `k` places further on, and with its points in
/// reverse order where `mirror` is set.
fn outline_agrees(a: &Vec<Binary64>, b: &Vec<Binary64>, k: usize, mirror: bool) -> (r: bool)
    requires
        a.len() == b.len(),
        k < a.len(),
        mirror ==> a.len() % 2 == 0,
    ensures
        r == agrees(a@, b@, k as int, mirror),
{
    let n = a.len();
    let mut i: usize = 0;
    while i < n
        invariant
            n == a.len(),
            n == b.len(),
            k < n,
            mirror ==> n % 2 == 0,
            i <= n,
            forall|h: int|
                0 <= h < i ==> (#[trigger] a[h]).same_value(b[place(n as int, h, k as int, mirror)]),
        decreases n - i,
    {
        let t = if i >= n - k {
            i - (n - k)
        } else {
            i + k
        };
        assert(t == (i + k) % (n as int)) by {
            if i >= n - k {
                vstd::arithmetic::div_mod::lemma_fundamental_div_mod_converse(
                    i + k,
                    n as int,
                    1,
                    t as int,
                );
            } else {
                vstd::arithmetic::div_mod::lemma_fundamental_div_mod_converse(
                    i + k,
                    n as int,
                    0,
                    t as int,
                );
            }
        }
        let at = if !mirror {
            t
        } else if t % 2 == 0 {
            n - 2 - t
        } else {
            n - t
        };
        if !a[i].value_eq(b[at]) {
            return false;
        }
        i = i + 1;
    }
    true
}

/// Whether the two outlines are the same closed line.
pub fn outlines_match(a: &Vec<Binary64>, b: &Vec<Binary64>) -> (r: bool)
    ensures
        r == same_outline(a@, b@),
{
    let n = a.len();
    if n != b.len() || n == 0 {
        return false;
    }
    if n % 2 != 0 {
        return outline_agrees(a, b, 0, false);
    }
    let mut k: usize = 0;
    while k < n
        invariant
            n == a.len(),
            n == b.len(),
            n % 2 == 0,
            k % 2 == 0,
            k <= n,
            forall|h: int| 0 <= h < k && h % 2 == 0 ==> !agrees(a@, b@, h, false),
            forall|h: int| 0 <= h < k && h % 2 == 0 ==> !agrees(a@, b@, h, true),
        decreases n - k,
    {
        if outline_agrees(a, b, k, false) || outline_agrees(a, b, k, true) {
            return true;
        }
        k = k + 2;
    }
    false
}

impl PartialEq for PolygonsRS {
    fn eq(&self, other: &Self) -> (r: bool) {
        // The polygons of an annotation are taken to hold no outline twice.
        if !same_numbers(&self.size, &other.size) || self.counts.len() != other.counts.len() {
            return false;
        }
        let ghost mine = outlines(self.counts);
        let ghost others = outlines(other.counts);
        let mut i: usize = 0;
        while i < self.counts.len()
            invariant
                i <= self.counts.len(),
                mine == outlines(self.counts),
                others == outlines(other.counts),
                forall|h: int| 0 <= h < i ==> outline_among(#[trigger] mine[h], others),
            decreases self.counts.len() - i,
        {
            let mut found_match = false;
            let mut j: usize = 0;
            while j < other.counts.len() && !found_match
                invariant
                    i < self.counts.len(),
                    j <= other.counts.len(),
                    mine == outlines(self.counts),
                    others == outlines(other.counts),
                    found_match ==> outline_among(mine[i as int], others),
                    !found_match ==> forall|h: int|
                        0 <= h < j ==> !same_outline(mine[i as int], #[trigger] others[h]),
                decreases other.counts.len() - j,
            {
                assert(others[j as int] == other.counts[j as int]@);
                assert(mine[i as int] == self.counts[i as int]@);
                if outlines_match(&self.counts[i], &other.counts[j]) {
                    found_match = true;
                }
                j = j + 1;
            }
            if !found_match {
                proof {
                    assert(!outline_among(mine[i as int], others));
                    assert(self@.counts[i as int] == mine[i as int]);
                }
                return false;
            }
            i = i + 1;
        }
        proof {
            assert(self@.counts == mine);
            assert(other@.counts == others);
        }
        true
    }
}

impl vstd::std_specs::cmp::PartialEqSpecImpl for PolygonsRS {
    open spec fn obeys_eq_spec() -> bool {
        true
    }

    open spec fn eq_spec(&self, other: &Self) -> bool {
        same_polygons(self@, other@)
    }
}

/// Every coordinate of the outline is a number.
pub open spec fn all_numbers(a: Seq<Binary64>) -> bool {
    forall|i: int| 0 <= i < a.len() ==> !(#[trigger] a[i]).is_nan()
}

/// The outline `a` begun `k` places further on, and with its points in
/// reverse order where `mirror` is set.
pub open spec fn turned(a: Seq<Binary64>, k: int, mirror: bool) -> Seq<Binary64> {
    Seq::new(a.len(), |i: int| a[place(a.len() as int, i, k, mirror)])
}

/// A number under `2 * n` is brought under `n` by taking `n` from it once.
pub proof fn lemma_wrap(x: int, n: int)
    requires
        0 <= x < 2 * n,
    ensures
        x % n == if x >= n {
            x - n
        } else {
            x
        },
{
    if x >= n {
        vstd::arithmetic::div_mod::lemma_fundamental_div_mod_converse(x, n, 1, x - n);
    } else {
        vstd::arithmetic::div_mod::lemma_fundamental_div_mod_converse(x, n, 0, x);
    }
}

/// The places of an outline are places of the outline.
pub proof fn lemma_place_in_range(n: int, i: int, k: int, mirror: bool)
    requires
        0 <= i < n,
        0 <= k < n,
        mirror ==> n % 2 == 0,
    ensures
        0 <= place(n, i, k, mirror) < n,
{
    lemma_wrap(i + k, n);
}

/// An outline of numbers that is begun at another point, or run through in
/// the other direction, is the same outline.
pub proof fn lemma_turned_is_same(a: Seq<Binary64>, k: int, mirror: bool)
    requires
        a.len() > 0,
        all_numbers(a),
        0 <= k < a.len(),
        k % 2 == 0,
        a.len() % 2 != 0 ==> k == 0 && !mirror,
    ensures
        same_outline(turned(a, k, mirror), a),
{
    let n = a.len() as int;
    let b = turned(a, k, mirror);
    assert forall|i: int| 0 <= i < n implies (#[trigger] b[i]).same_value(
        a[place(n, i, k, mirror)],
    ) by {
        lemma_place_in_range(n, i, k, mirror);
    }
    assert(agrees(b, a, k, mirror));
}

/// The place from which an outline that was begun `k` places further on is
/// the outline again.
pub open spec fn back(n: int, k: int, mirror: bool) -> int {
    if mirror || k == 0 {
        k
    } else {
        n - k
    }
}

/// The place of a point in the other direction is a place of the same kind:
/// that of an `x` for an `x`, that of a `y` for a `y`.
proof fn lemma_mirrored(n: int, t: int)
    requires
        0 <= t < n,
        n % 2 == 0,
    ensures
        t % 2 == 0 ==> 0 <= n - 2 - t < n && (n - 2 - t) % 2 == 0,
        t % 2 != 0 ==> 0 <= n - t < n && (n - t) % 2 != 0,
{
}

/// In the other direction, the place that is held against a place leads back
/// to it.
proof fn lemma_place_back_mirrored(n: int, i: int, k: int)
    requires
        0 <= i < n,
        0 <= k < n,
        n % 2 == 0,
        k % 2 == 0,
    ensures
        0 <= place(n, i, k, true) < n,
        place(n, place(n, i, k, true), k, true) == i,
{
    lemma_wrap(i + k, n);
    let t = (i + k) % n;
    assert(t == i + k || t == i + k - n);
    assert(t % 2 == i % 2);
    lemma_mirrored(n, t);
    let j = place(n, i, k, true);
    assert(j == if t % 2 == 0 {
        n - 2 - t
    } else {
        n - t
    });
    lemma_wrap(j + k, n);
    let u = (j + k) % n;
    assert(u == j + k || u == j + k - n);
    if i % 2 == 0 {
        assert(j == n - 2 - t);
        assert(u == n - 2 - i);
        assert(u % 2 == 0);
    } else {
        assert(j == n - t);
        assert(u == n - i);
        assert(u % 2 != 0);
    }
}

/// In the same direction, going `back` from a place leads to the place that
/// leads to it.
proof fn lemma_place_back_straight(n: int, i: int, k: int)
    requires
        0 <= i < n,
        0 <= k < n,
    ensures
        0 <= place(n, i, back(n, k, false), false) < n,
        place(n, place(n, i, back(n, k, false), false), k, false) == i,
{
    let h = back(n, k, false);
    lemma_wrap(i + h, n);
    let j = (i + h) % n;
    assert(j == place(n, i, h, false));
    lemma_wrap(j + k, n);
}

/// Going `back` from a place leads to the place that leads to it.
pub proof fn lemma_place_back(n: int, i: int, k: int, mirror: bool)
    requires
        0 <= i < n,
        0 <= k < n,
        mirror ==> n % 2 == 0 && k % 2 == 0,
    ensures
        0 <= place(n, i, back(n, k, mirror), mirror) < n,
        place(n, place(n, i, back(n, k, mirror), mirror), k, mirror) == i,
{
    if mirror {
        lemma_place_back_mirrored(n, i, k);
    } else {
        lemma_place_back_straight(n, i, k);
    }
}

/// An outline of numbers is the same outline as itself begun at another
/// point, and as itself begun at another point and run through in the other
/// direction.
pub proof fn lemma_same_as_turned(a: Seq<Binary64>, k: int, mirror: bool)
    requires
        a.len() > 0,
        all_numbers(a),
        0 <= k < a.len(),
        k % 2 == 0,
        a.len() % 2 != 0 ==> k == 0 && !mirror,
    ensures
        same_outline(a, turned(a, k, mirror)),
{
    let n = a.len() as int;
    let b = turned(a, k, mirror);
    let h = back(n, k, mirror);
    assert forall|i: int| 0 <= i < n implies (#[trigger] a[i]).same_value(
        b[place(n, i, h, mirror)],
    ) by {
        lemma_place_back(n, i, k, mirror);
    }
    assert(agrees(a, b, h, mirror));
}

/// Polygons of numbers stay equal where each outline is begun at another
/// point, run through in the other direction, or both, and where the outlines
/// are listed in another order: `q` holds, at place `at[i]`, the outline `i`
/// of `p`, begun `2 * shift[i]` coordinates further on, in the other
/// direction where `mirror[i]` is set.
pub proof fn lemma_same_polygons(
    p: PolygonsRSView,
    q: PolygonsRSView,
    at: Seq<int>,
    shift: Seq<int>,
    mirror: Seq<bool>,
)
    requires
        p.size == q.size,
        p.counts.len() == q.counts.len(),
        at.len() == p.counts.len(),
        shift.len() == p.counts.len(),
        mirror.len() == p.counts.len(),
        forall|i: int|
            0 <= i < p.counts.len() ==> {
                &&& (#[trigger] p.counts[i]).len() > 0
                &&& p.counts[i].len() % 2 == 0
                &&& all_numbers(p.counts[i])
                &&& 0 <= 2 * shift[i] < p.counts[i].len()
                &&& 0 <= at[i] < q.counts.len()
                &&& q.counts[at[i]] == turned(p.counts[i], 2 * shift[i], mirror[i])
            },
    ensures
        same_polygons(p, q),
{
    assert forall|i: int| 0 <= i < p.counts.len() implies outline_among(
        #[trigger] p.counts[i],
        q.counts,
    ) by {
        lemma_same_as_turned(p.counts[i], 2 * shift[i], mirror[i]);
        assert(same_outline(p.counts[i], q.counts[at[i]]));
    }
}

/// Polygons with different sizes, with different numbers of outlines, or with
/// an outline in the first whose number of coordinates no outline of the
/// second has, are not equal.
pub proof fn lemma_different_polygons(p: PolygonsRSView, q: PolygonsRSView, i: int)
    requires
        p.size != q.size || p.counts.len() != q.counts.len() || (0 <= i < p.counts.len()
            && forall|j: int|
            0 <= j < q.counts.len() ==> (#[trigger] q.counts[j]).len() != p.counts[i].len()),
    ensures
        !same_polygons(p, q),
{
    if p.size == q.size && p.counts.len() == q.counts.len() {
        assert(!outline_among(p.counts[i], q.counts));
    }
}

/// The first `n` images by their ids. Of two images with one id the later
/// one stays.
pub open spec fn images_by_id(images: Seq<Image>, n: int) -> Map<u32, ImageView>
    decreases n,
{
    if n <= 0 {
        Map::empty()
    } else {
        images_by_id(images, n - 1).insert(images[n - 1].id, images[n - 1]@)
    }
}

/// The first `n` categories by their ids. Of two categories with one id the
/// later one stays.
pub open spec fn categories_by_id(categories: Seq<Category>, n: int) -> Map<u32, CategoryView>
    decreases n,
{
    if n <= 0 {
        Map::empty()
    } else {
        categories_by_id(categories, n - 1).insert(categories[n - 1].id, categories[n - 1]@)
    }
}

/// The annotation is one of polygons for an image that is not there.
pub open spec fn lacks_image(annotation: AnnotationView, imgs: Map<u32, ImageView>) -> bool {
    annotation.segmentation is Polygons && !imgs.contains_key(annotation.image_id)
}

/// The annotation as the dataset holds it: polygons are given the height and
/// the width of their image.
pub open spec fn with_size(annotation: AnnotationView, imgs: Map<u32, ImageView>) -> AnnotationView {
    match annotation.segmentation {
        SegmentationView::Polygons(counts) => AnnotationView {
            segmentation: SegmentationView::PolygonsRS(
                PolygonsRSView {
                    size: seq![imgs[annotation.image_id].height, imgs[annotation.image_id].width],
                    counts,
                },
            ),
            ..annotation
        },
        _ => annotation,
    }
}

/// The first `n` annotations by their ids. Of two annotations with one id
/// the later one stays.
pub open spec fn annotations_by_id(
    annotations: Seq<Annotation>,
    imgs: Map<u32, ImageView>,
    n: int,
) -> Map<u32, AnnotationView>
    decreases n,
{
    if n <= 0 {
        Map::empty()
    } else {
        annotations_by_id(annotations, imgs, n - 1).insert(
            annotations[n - 1].id,
            with_size(annotations[n - 1]@, imgs),
        )
    }
}

/// The ids that `by_image` holds for an image; none where it holds
/// nothing for it.
pub open spec fn ids_of(by_image: Map<u32, Set<u32>>, image_id: u32) -> Set<u32> {
    if by_image.contains_key(image_id) {
        by_image[image_id]
    } else {
        Set::empty()
    }
}

/// For each image the ids of those of the first `n` annotations that are
/// annotations of it. Every image has an entry, and so has every other image
/// id that an annotation names.
pub open spec fn annotations_by_image(
    annotations: Seq<Annotation>,
    imgs: Map<u32, ImageView>,
    n: int,
) -> Map<u32, Set<u32>>
    decreases n,
{
    if n <= 0 {
        imgs.map_values(|i: ImageView| Set::<u32>::empty())
    } else {
        let before = annotations_by_image(annotations, imgs, n - 1);
        before.insert(
            annotations[n - 1].image_id,
            ids_of(before, annotations[n - 1].image_id).insert(annotations[n - 1].id),
        )
    }
}

/// The dataset of what an annotation file holds.
pub open spec fn dataset_of(dataset: Dataset, image_folder: Seq<char>) -> HashmapDatasetView {
    let imgs = images_by_id(dataset.images@, dataset.images.len() as int);
    HashmapDatasetView {
        anns: annotations_by_id(dataset.annotations@, imgs, dataset.annotations.len() as int),
        cats: categories_by_id(dataset.categories@, dataset.categories.len() as int),
        imgs,
        img_to_anns: annotations_by_image(
            dataset.annotations@,
            imgs,
            dataset.annotations.len() as int,
        ),
        image_folder,
    }
}

/// Annotation `i` is the first one of polygons for an image that is not
/// there.
pub open spec fn first_without_image(dataset: Dataset, i: int) -> bool {
    let imgs = images_by_id(dataset.images@, dataset.images.len() as int);
    &&& 0 <= i < dataset.annotations.len()
    &&& lacks_image(dataset.annotations[i]@, imgs)
    &&& forall|j: int| 0 <= j < i ==> !lacks_image(#[trigger] dataset.annotations[j]@, imgs)
}

/// The error is that on an annotation of the file at `path` whose image with
/// the id `image_id` is not there.
pub open spec fn error_at(error: LoadingError, image_id: u32, path: Seq<char>) -> bool {
    error matches LoadingError::Parsing(MissingIdError::Image(id), at) && id == image_id && at@
        == path
}

impl HashmapDatasetView {
    /// Every annotation that is listed for an image is there.
    pub open spec fn wf(self) -> bool {
        forall|image_id: u32, id: u32|
            self.img_to_anns.contains_key(image_id) && #[trigger] self.img_to_anns[image_id].contains(
                id,
            ) ==> self.anns.contains_key(id)
    }
}

impl HashmapDataset {
    /// The dataset that `new` makes: none where an annotation of polygons
    /// names an image that is not there.
    pub open spec fn new_spec(dataset: Dataset, image_folder: Seq<char>) -> Option<
        HashmapDatasetView,
    > {
        if exists|i: int| first_without_image(dataset, i) {
            None
        } else {
            Some(dataset_of(dataset, image_folder))
        }
    }

    /// The dataset of what an annotation file holds, with the folder of its
    /// images. Polygons are given the size of their image; the dataset cannot
    /// be made where that image is not there.
    pub fn new(dataset: Dataset, annotations_path: &str, image_folder: &str) -> (r: Result<
        HashmapDataset,
        LoadingError,
    >)
        ensures
            r matches Ok(made) ==> made@ == dataset_of(dataset, image_folder@) && made@.wf(),
            r matches Ok(made) ==> HashmapDataset::new_spec(dataset, image_folder@) == Some(made@),
            r is Err ==> HashmapDataset::new_spec(dataset, image_folder@) is None,
            r is Ok <==> (forall|i: int|
                0 <= i < dataset.annotations.len() ==> !lacks_image(
                    #[trigger] dataset.annotations[i]@,
                    images_by_id(dataset.images@, dataset.images.len() as int),
                )),
            r matches Err(error) ==> (exists|i: int|
                first_without_image(dataset, i) && error_at(
                    error,
                    (#[trigger] dataset.annotations[i]).image_id,
                    annotations_path@,
                )),
    {
        broadcast use vstd::std_specs::hash::group_hash_axioms;

        let ghost given = dataset;
        let mut cats: HashMap<u32, Category> = HashMap::new();
        let categories = dataset.categories;
        for category in iter: categories
            invariant
                iter.seq() == given.categories@,
                cats@.map_values(|c: Category| c@) == categories_by_id(
                    given.categories@,
                    iter.index() as int,
                ),
        {
            let ghost before = cats@.map_values(|c: Category| c@);
            cats.insert(category.id, category);
            assert(cats@.map_values(|c: Category| c@) =~= before.insert(category.id, category@));
        }
        let mut imgs: HashMap<u32, Image> = HashMap::new();
        let mut img_to_anns: HashMap<u32, HashSet<u32>> = HashMap::new();
        let images = dataset.images;
        for image in iter: images
            invariant
                iter.seq() == given.images@,
                imgs@.map_values(|i: Image| i@) == images_by_id(given.images@, iter.index() as int),
                img_to_anns@.map_values(|s: HashSet<u32>| s@) == imgs@.map_values(
                    |i: Image| Set::<u32>::empty(),
                ),
        {
            let ghost before = imgs@.map_values(|i: Image| i@);
            let ghost sets = img_to_anns@.map_values(|s: HashSet<u32>| s@);
            // Every image has (at least) an empty set of annotations.
            img_to_anns.insert(image.id, HashSet::new());
            assert(img_to_anns@.map_values(|s: HashSet<u32>| s@) =~= sets.insert(
                image.id,
                Set::empty(),
            ));
            imgs.insert(image.id, image);
            assert(imgs@.map_values(|i: Image| i@) =~= before.insert(image.id, image@));
            assert(img_to_anns@.map_values(|s: HashSet<u32>| s@) =~= imgs@.map_values(
                |i: Image| Set::<u32>::empty(),
            ));
        }
        let ghost views = imgs@.map_values(|i: Image| i@);
        assert(imgs@.map_values(|i: Image| Set::<u32>::empty()) =~= views.map_values(
            |i: ImageView| Set::<u32>::empty(),
        ));
        let mut anns: HashMap<u32, Annotation> = HashMap::new();
        let annotations = dataset.annotations;
        proof {
            let sets = img_to_anns@.map_values(|s: HashSet<u32>| s@);
            assert forall|image_id: u32, id: u32|
                img_to_anns@.contains_key(image_id) implies !(
                #[trigger] img_to_anns@[image_id]@.contains(id)) by {
                assert(sets.contains_key(image_id));
                assert(sets[image_id] == img_to_anns@[image_id]@);
            }
        }
        for annotation in iter: annotations
            invariant
                given == dataset,
                iter.seq() == given.annotations@,
                views == imgs@.map_values(|i: Image| i@),
                views == images_by_id(given.images@, given.images.len() as int),
                anns@.map_values(|a: Annotation| a@) == annotations_by_id(
                    given.annotations@,
                    views,
                    iter.index() as int,
                ),
                img_to_anns@.map_values(|s: HashSet<u32>| s@) == annotations_by_image(
                    given.annotations@,
                    views,
                    iter.index() as int,
                ),
                forall|j: int|
                    0 <= j < iter.index() ==> !lacks_image(
                        #[trigger] given.annotations[j]@,
                        views,
                    ),
                forall|image_id: u32, id: u32|
                    img_to_anns@.contains_key(image_id) && #[trigger] img_to_anns@[image_id]@.contains(
                        id,
                    ) ==> anns@.contains_key(id),
        {
            let ghost at = iter.index() as int;
            let ghost before = anns@.map_values(|a: Annotation| a@);
            let ghost sets = img_to_anns@.map_values(|s: HashSet<u32>| s@);
            let ghost old_sets = img_to_anns@;
            let ghost old_anns = anns@;
            let ghost unsized_form = annotation@;
            let ann_id = annotation.id;
            let img_id = annotation.image_id;
            let mut annotation = annotation;
            // Polygons do not hold the size of their image: they are turned into
            // the form that does.
            let segmentation = match annotation.segmentation {
                Segmentation::Polygons(counts) => {
                    let size = match imgs.get(&img_id) {
                        Some(img) => {
                            let mut size: Vec<u32> = Vec::new();
                            size.push(img.height);
                            size.push(img.width);
                            assert(size@ =~= seq![views[img_id].height, views[img_id].width]);
                            size
                        },
                        None => {
                            proof {
                                assert(given.annotations@[at] == annotation);
                                assert(!views.contains_key(img_id));
                                assert(lacks_image(given.annotations[at]@, views));
                                assert(first_without_image(given, at));
                                assert(given.annotations[at].image_id == img_id);
                            }
                            return Err(
                                LoadingError::Parsing(
                                    MissingIdError::Image(img_id),
                                    annotations_path.to_owned(),
                                ),
                            );
                        },
                    };
                    Segmentation::PolygonsRS(PolygonsRS { size, counts })
                },
                other => other,
            };
            annotation.segmentation = segmentation;
            assert(annotation@ == with_size(unsized_form, views));
            anns.insert(ann_id, annotation);
            assert(anns@.map_values(|a: Annotation| a@) =~= before.insert(
                ann_id,
                with_size(unsized_form, views),
            ));
            let mut ids = match img_to_anns.remove(&img_id) {
                Some(ids) => ids,
                None => HashSet::new(),
            };
            assert(ids@ == ids_of(sets, img_id));
            ids.insert(ann_id);
            img_to_anns.insert(img_id, ids);
            assert(img_to_anns@.map_values(|s: HashSet<u32>| s@) =~= sets.insert(
                img_id,
                ids_of(sets, img_id).insert(ann_id),
            ));
            assert forall|image_id: u32, id: u32|
                img_to_anns@.contains_key(image_id) && #[trigger] img_to_anns@[image_id]@.contains(
                    id,
                ) implies anns@.contains_key(id) by {
                if image_id != img_id {
                    assert(old_sets.contains_key(image_id) && old_sets[image_id]@.contains(id));
                } else if id != ann_id {
                    assert(old_sets.contains_key(image_id) && old_sets[image_id]@.contains(id));
                }
            }
        }
        let made = HashmapDataset {
            anns,
            cats,
            imgs,
            img_to_anns,
            image_folder: image_folder.to_owned(),
        };
        proof {
            assert(made@.anns == dataset_of(given, image_folder@).anns);
            assert(made@.img_to_anns == dataset_of(given, image_folder@).img_to_anns);
            assert(made@.cats == dataset_of(given, image_folder@).cats);
            assert(made@.imgs == dataset_of(given, image_folder@).imgs);
            assert forall|image_id: u32, id: u32|
                made@.img_to_anns.contains_key(image_id) && #[trigger] made@.img_to_anns[image_id].contains(
                    id,
                ) implies made@.anns.contains_key(id) by {
                assert(made.img_to_anns@[image_id]@.contains(id));
            }
        }
        Ok(made)
    }
}

/// The list holds, in some order, what `by_id` holds for each of the ids,
/// each once.
pub open spec fn listed<V>(list: Seq<V>, by_id: Map<u32, V>, ids: Set<u32>) -> bool {
    exists|order: Seq<u32>|
        {
            &&& order.no_duplicates()
            &&& order.to_set() == ids
            &&& #[trigger] order.len() == list.len()
            &&& forall|i: int|
                0 <= i < list.len() ==> by_id.contains_key(#[trigger] order[i]) && list[i]
                    == by_id[order[i]]
        }
}

/// The annotations as values.
pub open spec fn annotation_views(list: Seq<&Annotation>) -> Seq<AnnotationView> {
    list.map_values(|a: &Annotation| a@)
}

/// The categories as values.
pub open spec fn category_views(list: Seq<&Category>) -> Seq<CategoryView> {
    list.map_values(|c: &Category| c@)
}

/// The images as values.
pub open spec fn image_views(list: Seq<&Image>) -> Seq<ImageView> {
    list.map_values(|i: &Image| i@)
}

/// The keys of a map, each once.
fn keys_of<V>(map: &HashMap<u32, V>) -> (keys: Vec<u32>)
    ensures
        keys@.no_duplicates(),
        keys@.to_set() == map@.dom(),
{
    broadcast use vstd::std_specs::hash::group_hash_axioms;

    let mut keys: Vec<u32> = Vec::new();
    for key in iter: map.keys()
        invariant
            keys@ == iter.seq().unref().take(iter.index() as int),
            iter.seq().unref().take(iter.seq().len() as int) == iter.seq().unref(),
            iter.seq().unref().to_set() == map@.dom(),
            iter.seq().unref().no_duplicates(),
    {
        keys.push(*key);
    }
    keys
}

/// The members of a set, each once.
fn members_of(set: &HashSet<u32>) -> (members: Vec<u32>)
    ensures
        members@.no_duplicates(),
        members@.to_set() == set@,
{
    broadcast use vstd::std_specs::hash::group_hash_axioms;

    let mut members: Vec<u32> = Vec::new();
    for member in iter: set.iter()
        invariant
            members@ == iter.seq().unref().take(iter.index() as int),
            iter.seq().unref().take(iter.seq().len() as int) == iter.seq().unref(),
            iter.seq().unref().to_set() == set@,
            iter.seq().unref().no_duplicates(),
    {
        members.push(*member);
    }
    members
}

/// What the map holds for each of the keys, or the first of the keys for
/// which it holds nothing.
fn values_at<'a, V>(map: &'a HashMap<u32, V>, keys: &Vec<u32>) -> (r: Result<Vec<&'a V>, u32>)
    ensures
        match r {
            Ok(list) => {
                &&& list.len() == keys.len()
                &&& forall|i: int|
                    0 <= i < keys.len() ==> map@.contains_key(#[trigger] keys[i]) && *list[i]
                        == map@[keys[i]]
            },
            Err(key) => keys@.contains(key) && !map@.contains_key(key),
        },
{
    broadcast use vstd::std_specs::hash::group_hash_axioms;

    let mut list: Vec<&V> = Vec::new();
    let mut i: usize = 0;
    while i < keys.len()
        invariant
            i <= keys.len(),
            list.len() == i,
            forall|h: int|
                0 <= h < i ==> map@.contains_key(#[trigger] keys[h]) && *list[h] == map@[keys[h]],
        decreases keys.len() - i,
    {
        match map.get(&keys[i]) {
            Some(value) => {
                list.push(value);
            },
            None => {
                return Err(keys[i]);
            },
        }
        i = i + 1;
    }
    Ok(list)
}

impl HashmapDataset {
    /// The annotation with the given id.
    pub fn get_ann(&self, ann_id: u32) -> (r: Result<&Annotation, MissingIdError>)
        ensures
            match r {
                Ok(annotation) => self@.anns.contains_key(ann_id) && annotation@
                    == self@.anns[ann_id],
                Err(error) => !self@.anns.contains_key(ann_id) && error
                    == MissingIdError::Annotation(ann_id),
            },
    {
        broadcast use vstd::std_specs::hash::group_hash_axioms;

        match self.anns.get(&ann_id) {
            Some(annotation) => Ok(annotation),
            None => Err(MissingIdError::Annotation(ann_id)),
        }
    }

    /// All the annotations of the dataset, in no particular order.
    pub fn get_anns(&self) -> (list: Vec<&Annotation>)
        ensures
            listed(annotation_views(list@), self@.anns, self@.anns.dom()),
    {
        let keys = keys_of(&self.anns);
        match values_at(&self.anns, &keys) {
            Ok(list) => {
                proof {
                    let views = annotation_views(list@);
                    assert(keys@.len() == views.len());
                    assert forall|i: int| 0 <= i < views.len() implies self@.anns.contains_key(
                        #[trigger] keys@[i],
                    ) && views[i] == self@.anns[keys@[i]] by {
                        assert(self.anns@.contains_key(keys[i]));
                    }
                    assert(self@.anns.dom() =~= self.anns@.dom());
                }
                list
            },
            Err(key) => {
                proof {
                    assert(keys@.to_set().contains(key));
                }
                vstd::pervasive::unreached()
            },
        }
    }

    /// The category with the given id.
    pub fn get_cat(&self, cat_id: u32) -> (r: Result<&Category, MissingIdError>)
        ensures
            match r {
                Ok(category) => self@.cats.contains_key(cat_id) && category@ == self@.cats[cat_id],
                Err(error) => !self@.cats.contains_key(cat_id) && error
                    == MissingIdError::Category(cat_id),
            },
    {
        broadcast use vstd::std_specs::hash::group_hash_axioms;

        match self.cats.get(&cat_id) {
            Some(category) => Ok(category),
            None => Err(MissingIdError::Category(cat_id)),
        }
    }

    /// All the categories of the dataset, in no particular order.
    pub fn get_cats(&self) -> (list: Vec<&Category>)
        ensures
            listed(category_views(list@), self@.cats, self@.cats.dom()),
    {
        let keys = keys_of(&self.cats);
        match values_at(&self.cats, &keys) {
            Ok(list) => {
                proof {
                    let views = category_views(list@);
                    assert(keys@.len() == views.len());
                    assert forall|i: int| 0 <= i < views.len() implies self@.cats.contains_key(
                        #[trigger] keys@[i],
                    ) && views[i] == self@.cats[keys@[i]] by {
                        assert(self.cats@.contains_key(keys[i]));
                    }
                    assert(self@.cats.dom() =~= self.cats@.dom());
                }
                list
            },
            Err(key) => {
                proof {
                    assert(keys@.to_set().contains(key));
                }
                vstd::pervasive::unreached()
            },
        }
    }

    /// The image with the given id.
    pub fn get_img(&self, img_id: u32) -> (r: Result<&Image, MissingIdError>)
        ensures
            match r {
                Ok(image) => self@.imgs.contains_key(img_id) && image@ == self@.imgs[img_id],
                Err(error) => !self@.imgs.contains_key(img_id) && error == MissingIdError::Image(
                    img_id,
                ),
            },
    {
        broadcast use vstd::std_specs::hash::group_hash_axioms;

        match self.imgs.get(&img_id) {
            Some(image) => Ok(image),
            None => Err(MissingIdError::Image(img_id)),
        }
    }

    /// All the images of the dataset, in no particular order.
    pub fn get_imgs(&self) -> (list: Vec<&Image>)
        ensures
            listed(image_views(list@), self@.imgs, self@.imgs.dom()),
    {
        let keys = keys_of(&self.imgs);
        match values_at(&self.imgs, &keys) {
            Ok(list) => {
                proof {
                    let views = image_views(list@);
                    assert(keys@.len() == views.len());
                    assert forall|i: int| 0 <= i < views.len() implies self@.imgs.contains_key(
                        #[trigger] keys@[i],
                    ) && views[i] == self@.imgs[keys@[i]] by {
                        assert(self.imgs@.contains_key(keys[i]));
                    }
                    assert(self@.imgs.dom() =~= self.imgs@.dom());
                }
                list
            },
            Err(key) => {
                proof {
                    assert(keys@.to_set().contains(key));
                }
                vstd::pervasive::unreached()
            },
        }
    }

    /// The annotations of the image with the given id, in no particular
    /// order. There is no such list where the image is not there, nor where
    /// an annotation of the image is not.
    pub fn get_img_anns(&self, img_id: u32) -> (r: Result<Vec<&Annotation>, MissingIdError>)
        ensures
            match r {
                Ok(list) => self@.img_to_anns.contains_key(img_id) && listed(
                    annotation_views(list@),
                    self@.anns,
                    self@.img_to_anns[img_id],
                ),
                Err(MissingIdError::Image(id)) => id == img_id && !self@.img_to_anns.contains_key(
                    img_id,
                ),
                Err(MissingIdError::Annotation(id)) => self@.img_to_anns.contains_key(img_id)
                    && self@.img_to_anns[img_id].contains(id) && !self@.anns.contains_key(id),
                Err(MissingIdError::Category(_)) => false,
            },
            self@.wf() && self@.img_to_anns.contains_key(img_id) ==> r is Ok,
    {
        broadcast use vstd::std_specs::hash::group_hash_axioms;

        let ann_ids = match self.img_to_anns.get(&img_id) {
            Some(ann_ids) => ann_ids,
            None => {
                return Err(MissingIdError::Image(img_id));
            },
        };
        let ids = members_of(ann_ids);
        match values_at(&self.anns, &ids) {
            Ok(list) => {
                proof {
                    let views = annotation_views(list@);
                    assert(ids@.len() == views.len());
                    assert forall|i: int| 0 <= i < views.len() implies self@.anns.contains_key(
                        #[trigger] ids@[i],
                    ) && views[i] == self@.anns[ids@[i]] by {
                        assert(self.anns@.contains_key(ids[i]));
                    }
                }
                Ok(list)
            },
            Err(id) => {
                proof {
                    assert(ids@.to_set().contains(id));
                }
                Err(MissingIdError::Annotation(id))
            },
        }
    }

    /// The folder of the images.
    pub fn folder(&self) -> (folder: &String)
        ensures
            folder@ == self@.image_folder,
    {
        &self.image_folder
    }

    /// The ids of the annotations of the dataset, each once.
    pub fn annotation_ids(&self) -> (ids: Vec<u32>)
        ensures
            ids@.no_duplicates(),
            ids@.to_set() == self@.anns.dom(),
    {
        let ids = keys_of(&self.anns);
        assert(self@.anns.dom() =~= self.anns@.dom());
        ids
    }

    /// Adds a copy of the annotation to the dataset, and lists it for its
    /// image. An annotation with the same id is overwritten.
    pub fn add_ann(&mut self, ann: &Annotation)
        ensures
            final(self)@ == (HashmapDatasetView {
                anns: old(self)@.anns.insert(ann.id, ann@),
                img_to_anns: old(self)@.img_to_anns.insert(
                    ann.image_id,
                    ids_of(old(self)@.img_to_anns, ann.image_id).insert(ann.id),
                ),
                ..old(self)@
            }),
            old(self)@.wf() ==> final(self)@.wf(),
    {
        broadcast use vstd::std_specs::hash::group_hash_axioms;

        let ghost before = self.anns@.map_values(|a: Annotation| a@);
        let ghost sets = self.img_to_anns@.map_values(|s: HashSet<u32>| s@);
        self.anns.insert(ann.id, ann.copy());
        assert(self.anns@.map_values(|a: Annotation| a@) =~= before.insert(ann.id, ann@));
        let mut ids = match self.img_to_anns.remove(&ann.image_id) {
            Some(ids) => ids,
            None => HashSet::new(),
        };
        assert(ids@ == ids_of(sets, ann.image_id));
        ids.insert(ann.id);
        self.img_to_anns.insert(ann.image_id, ids);
        assert(self.img_to_anns@.map_values(|s: HashSet<u32>| s@) =~= sets.insert(
            ann.image_id,
            ids_of(sets, ann.image_id).insert(ann.id),
        ));
        proof {
            let now = self@;
            let then = old(self)@;
            if then.wf() {
                assert forall|image_id: u32, id: u32|
                    now.img_to_anns.contains_key(image_id) && #[trigger] now.img_to_anns[image_id].contains(
                        id,
                    ) implies now.anns.contains_key(id) by {
                    if id != ann.id {
                        assert(then.img_to_anns.contains_key(image_id)
                            && then.img_to_anns[image_id].contains(id));
                    }
                }
            }
        }
    }

    /// Puts another segmentation in the place of that of an annotation.
    pub fn replace_segmentation(&mut self, ann_id: u32, segmentation: Segmentation)
        requires
            old(self)@.anns.contains_key(ann_id),
        ensures
            final(self)@ == (HashmapDatasetView {
                anns: old(self)@.anns.insert(
                    ann_id,
                    AnnotationView { segmentation: segmentation@, ..old(self)@.anns[ann_id] },
                ),
                ..old(self)@
            }),
            old(self)@.wf() ==> final(self)@.wf(),
    {
        broadcast use vstd::std_specs::hash::group_hash_axioms;

        let ghost before = self.anns@.map_values(|a: Annotation| a@);
        match self.anns.remove(&ann_id) {
            Some(annotation) => {
                let mut annotation = annotation;
                annotation.segmentation = segmentation;
                self.anns.insert(ann_id, annotation);
                assert(self.anns@.map_values(|a: Annotation| a@) =~= before.insert(
                    ann_id,
                    AnnotationView { segmentation: segmentation@, ..before[ann_id] },
                ));
            },
            None => {
                assert(false);
            },
        }
    }
}

impl Image {
    /// The image entry with the given fields.
    pub fn new(id: u32, width: u32, height: u32, file_name: String) -> (image: Image)
        ensures
            image == (Image { id, width, height, file_name }),
    {
        Image { id, width, height, file_name }
    }

    /// A copy of the image entry.
    pub fn copy(&self) -> (image: Image)
        ensures
            image@ == self@,
    {
        Image {
            id: self.id,
            width: self.width,
            height: self.height,
            file_name: self.file_name.clone(),
        }
    }
}

impl Category {
    /// The category with the given fields.
    pub fn new(id: u32, name: String, supercategory: String) -> (category: Category)
        ensures
            category == (Category { id, name, supercategory }),
    {
        Category { id, name, supercategory }
    }

    /// A copy of the category.
    pub fn copy(&self) -> (category: Category)
        ensures
            category@ == self@,
    {
        Category {
            id: self.id,
            name: self.name.clone(),
            supercategory: self.supercategory.clone(),
        }
    }
}

impl Bbox {
    /// The bounding box with the given fields.
    pub fn new(left: Binary64, top: Binary64, width: Binary64, height: Binary64) -> (bbox: Bbox)
        ensures
            bbox == (Bbox { left, top, width, height }),
    {
        Bbox { left, top, width, height }
    }
}

impl Rle {
    /// The run lengths with the given fields.
    pub fn new(size: Vec<u32>, counts: Vec<u32>) -> (rle: Rle)
        ensures
            rle == (Rle { size, counts }),
    {
        Rle { size, counts }
    }

    /// A copy of the run lengths.
    pub fn copy(&self) -> (rle: Rle)
        ensures
            rle@ == self@,
    {
        Rle { size: self.size.clone(), counts: self.counts.clone() }
    }
}

impl CocoRle {
    /// The compressed run lengths with the given fields.
    pub fn new(size: Vec<u32>, counts: String) -> (coco_rle: CocoRle)
        ensures
            coco_rle == (CocoRle { size, counts }),
    {
        CocoRle { size, counts }
    }

    /// A copy of the compressed run lengths.
    pub fn copy(&self) -> (coco_rle: CocoRle)
        ensures
            coco_rle@ == self@,
    {
        CocoRle { size: self.size.clone(), counts: self.counts.clone() }
    }
}

/// A copy of the polygons.
pub fn copy_polygons(polygons: &Polygons) -> (copy: Polygons)
    ensures
        outlines(copy) == outlines(*polygons),
{
    let mut copy: Polygons = Vec::new();
    let mut i: usize = 0;
    while i < polygons.len()
        invariant
            i <= polygons.len(),
            outlines(copy) == outlines(*polygons).take(i as int),
        decreases polygons.len() - i,
    {
        let ghost before = outlines(copy);
        let outline = polygons[i].clone();
        assert(outline@ == polygons[i as int]@);
        copy.push(outline);
        assert(outlines(copy) =~= before.push(polygons[i as int]@));
        assert(outlines(*polygons)[i as int] == polygons[i as int]@);
        i = i + 1;
        assert(outlines(copy) =~= outlines(*polygons).take(i as int));
    }
    assert(outlines(copy) =~= outlines(*polygons));
    copy
}

impl PolygonsRS {
    /// The polygons with the given size.
    pub fn new(size: Vec<u32>, counts: Polygons) -> (polygons: PolygonsRS)
        ensures
            polygons.size == size,
            polygons.counts == counts,
    {
        PolygonsRS { size, counts }
    }

    /// A copy of the polygons and their size.
    pub fn copy(&self) -> (polygons: PolygonsRS)
        ensures
            polygons@ == self@,
    {
        PolygonsRS { size: self.size.clone(), counts: copy_polygons(&self.counts) }
    }
}

/// The segmentation as an annotation file holds it: polygons without
/// their size.
pub open spec fn flattened(segmentation: SegmentationView) -> SegmentationView {
    match segmentation {
        SegmentationView::PolygonsRS(polygons) => SegmentationView::Polygons(polygons.counts),
        _ => segmentation,
    }
}

/// The annotation as an annotation file holds it.
pub open spec fn flattened_annotation(annotation: AnnotationView) -> AnnotationView {
    AnnotationView { segmentation: flattened(annotation.segmentation), ..annotation }
}

impl Segmentation {
    /// A copy of the segmentation.
    pub fn copy(&self) -> (segmentation: Segmentation)
        ensures
            segmentation@ == self@,
    {
        match self {
            Segmentation::Rle(rle) => Segmentation::Rle(rle.copy()),
            Segmentation::CocoRle(coco_rle) => Segmentation::CocoRle(coco_rle.copy()),
            Segmentation::Polygons(polygons) => Segmentation::Polygons(copy_polygons(polygons)),
            Segmentation::PolygonsRS(polygons) => Segmentation::PolygonsRS(polygons.copy()),
        }
    }

    /// A copy of the segmentation as an annotation file holds it: polygons
    /// without their size.
    pub fn flatten(&self) -> (segmentation: Segmentation)
        ensures
            segmentation@ == flattened(self@),
    {
        match self {
            Segmentation::PolygonsRS(polygons) => Segmentation::Polygons(
                copy_polygons(&polygons.counts),
            ),
            _ => self.copy(),
        }
    }
}

impl Annotation {
    /// A copy of the annotation.
    pub fn copy(&self) -> (annotation: Annotation)
        ensures
            annotation@ == self@,
    {
        Annotation {
            id: self.id,
            image_id: self.image_id,
            category_id: self.category_id,
            segmentation: self.segmentation.copy(),
            area: self.area,
            bbox: self.bbox,
            iscrowd: self.iscrowd,
        }
    }

    /// A copy of the annotation as an annotation file holds it.
    pub fn flatten(&self) -> (annotation: Annotation)
        ensures
            annotation@ == flattened_annotation(self@),
    {
        Annotation {
            id: self.id,
            image_id: self.image_id,
            category_id: self.category_id,
            segmentation: self.segmentation.flatten(),
            area: self.area,
            bbox: self.bbox,
            iscrowd: self.iscrowd,
        }
    }
}

/// The images of the dataset as values.
pub open spec fn dataset_images(dataset: Dataset) -> Seq<ImageView> {
    dataset.images@.map_values(|i: Image| i@)
}

/// The annotations of the dataset as values.
pub open spec fn dataset_annotations(dataset: Dataset) -> Seq<AnnotationView> {
    dataset.annotations@.map_values(|a: Annotation| a@)
}

/// The categories of the dataset as values.
pub open spec fn dataset_categories(dataset: Dataset) -> Seq<CategoryView> {
    dataset.categories@.map_values(|c: Category| c@)
}

impl Dataset {
    /// What an annotation file holds of the dataset: its images, its
    /// categories, and its annotations with polygons without their size, each
    /// once and in no particular order.
    pub fn from_hashmap_dataset(dataset: &HashmapDataset) -> (r: Dataset)
        ensures
            listed(dataset_images(r), dataset@.imgs, dataset@.imgs.dom()),
            listed(dataset_categories(r), dataset@.cats, dataset@.cats.dom()),
            listed(
                dataset_annotations(r),
                dataset@.anns.map_values(|a: AnnotationView| flattened_annotation(a)),
                dataset@.anns.dom(),
            ),
    {
        let imgs = dataset.get_imgs();
        let mut images: Vec<Image> = Vec::new();
        let mut i: usize = 0;
        while i < imgs.len()
            invariant
                i <= imgs.len(),
                images.len() == i,
                forall|h: int| 0 <= h < i ==> (#[trigger] images[h])@ == imgs[h]@,
            decreases imgs.len() - i,
        {
            images.push(imgs[i].copy());
            i = i + 1;
        }
        let cats = dataset.get_cats();
        let mut categories: Vec<Category> = Vec::new();
        let mut i: usize = 0;
        while i < cats.len()
            invariant
                i <= cats.len(),
                categories.len() == i,
                forall|h: int| 0 <= h < i ==> (#[trigger] categories[h])@ == cats[h]@,
            decreases cats.len() - i,
        {
            categories.push(cats[i].copy());
            i = i + 1;
        }
        let anns = dataset.get_anns();
        let mut annotations: Vec<Annotation> = Vec::new();
        let mut i: usize = 0;
        while i < anns.len()
            invariant
                i <= anns.len(),
                annotations.len() == i,
                forall|h: int|
                    0 <= h < i ==> (#[trigger] annotations[h])@ == flattened_annotation(anns[h]@),
            decreases anns.len() - i,
        {
            annotations.push(anns[i].flatten());
            i = i + 1;
        }
        let r = Dataset { images, annotations, categories };
        proof {
            assert(dataset_images(r) =~= image_views(imgs@));
            assert(dataset_categories(r) =~= category_views(cats@));
            let flat = dataset@.anns.map_values(|a: AnnotationView| flattened_annotation(a));
            let views = annotation_views(anns@);
            let order = choose|order: Seq<u32>|
                {
                    &&& order.no_duplicates()
                    &&& order.to_set() == dataset@.anns.dom()
                    &&& #[trigger] order.len() == views.len()
                    &&& forall|i: int|
                        0 <= i < views.len() ==> dataset@.anns.contains_key(#[trigger] order[i])
                            && views[i] == dataset@.anns[order[i]]
                };
            assert forall|i: int| 0 <= i < dataset_annotations(r).len() implies flat.contains_key(
                #[trigger] order[i],
            ) && dataset_annotations(r)[i] == flat[order[i]] by {
                assert(views[i] == dataset@.anns[order[i]]);
            }
            assert(order.len() == dataset_annotations(r).len());
        }
        r
    }
}

} // verus!
