//! Polygons and masks: the outlines of the object in a mask, and the mask that
//! polygons fill. The borders are followed and the polygons are filled by
//! `imageproc`; what is done here is what comes before and after.
use crate::binary64::{clamp, Binary64};
use crate::coco::object_detection::{outlines, Polygons};
use vstd::prelude::*;

verus! {

/// What the coordinates of a polygon that is filled stay under in size, and
/// the sides and the number of pixels of an image whose borders are followed:
/// with these, the arithmetic of `imageproc` stays within 32 bits.
pub const LIMIT: u32 = 0x4000_0000;

/// The borders that `imageproc` finds in the grey image of the given width
/// and height whose pixels are `pixels`, row by row: each border as its
/// points, `x` before `y`.
pub uninterp spec fn borders_found(width: u32, height: u32, pixels: Seq<u8>) -> Seq<
    Seq<(u32, u32)>,
>;

/// The pixels, row by row, of the grey image of the given width and height
/// with pixels `pixels` after `imageproc` has filled the polygon with the
/// given corners with the value 1.
pub uninterp spec fn polygon_filled(
    width: u32,
    height: u32,
    pixels: Seq<u8>,
    corners: Seq<(i32, i32)>,
) -> Seq<u8>;

/// The borders as sequences.
pub open spec fn borders_view(borders: Vec<Vec<(u32, u32)>>) -> Seq<Seq<(u32, u32)>> {
    borders@.map_values(|border: Vec<(u32, u32)>| border@)
}

/// The corners lie within the range in which a polygon is filled.
pub open spec fn corners_in_range(corners: Seq<(i32, i32)>) -> bool {
    forall|i: int|
        0 <= i < corners.len() ==> -LIMIT < (#[trigger] corners[i]).0 < LIMIT && -LIMIT
            < corners[i].1 < LIMIT
}

/// The corners are an open path: the last corner is not the first one again.
pub open spec fn is_open_path(corners: Seq<(i32, i32)>) -> bool {
    corners.len() > 0 ==> corners[0] != corners.last()
}

/// `imageproc::contours::find_contours`, on the image that
/// `GrayImage::from_raw` makes of the pixels: the borders of the regions of
/// pixels that are not 0, each as the points that `imageproc` gives for it.
#[verifier::external_body]
pub(crate) fn find_borders(width: u32, height: u32, pixels: Vec<u8>) -> (found: Vec<
    Vec<(u32, u32)>,
>)
    requires
        pixels.len() == width * height,
        width < LIMIT,
        height < LIMIT,
        width * height < LIMIT,
    ensures
        borders_view(found) == borders_found(width, height, pixels@),
{
    let image = image::GrayImage::from_raw(width, height, pixels).expect("as many pixels as the size asks for");
    let contours = imageproc::contours::find_contours::<u32>(&image);
    contours.into_iter().map(|c| c.points.into_iter().map(|p| (p.x, p.y)).collect()).collect()
}

/// `imageproc::drawing::draw_polygon_mut` with the value 1, on the image that
/// `GrayImage::from_raw` makes of the pixels. It gives back as many pixels as
/// it was given.
#[verifier::external_body]
pub(crate) fn fill_polygon(width: u32, height: u32, pixels: Vec<u8>, corners: &Vec<(i32, i32)>) -> (filled: Vec<u8>)
    requires
        pixels.len() == width * height,
        0 < width < LIMIT,
        0 < height < LIMIT,
        is_open_path(corners@),
        corners_in_range(corners@),
    ensures
        filled@ == polygon_filled(width, height, pixels@, corners@),
        filled.len() == pixels.len(),
{
    let mut image = image::GrayImage::from_raw(width, height, pixels).expect("as many pixels as the size asks for");
    let points: Vec<imageproc::point::Point<i32>> = corners.iter().map(|c| imageproc::point::Point::new(c.0, c.1)).collect();
    imageproc::drawing::draw_polygon_mut(&mut image, &points, image::Luma([1u8]));
    image.into_raw()
}

/// Three points lie in one column or in one row.
pub open spec fn straight(a: (u32, u32), b: (u32, u32), c: (u32, u32)) -> bool {
    (a.0 == b.0 && b.0 == c.0) || (a.1 == b.1 && b.1 == c.1)
}

/// The three points that are looked at in step `j` for a border of `n`
/// points: from step 2 on the points `j - 2`, `j - 1` and `j` of the border,
/// where point `n` is the first point again; before that the first two points
/// in turn.
pub open spec fn triple(border: Seq<(u32, u32)>, j: int) -> ((u32, u32), (u32, u32), (u32, u32)) {
    if j == 0 {
        (border[0], border[1], border[0])
    } else if j == 1 {
        (border[1], border[0], border[1])
    } else if j == border.len() {
        (border[j - 2], border[j - 1], border[0])
    } else {
        (border[j - 2], border[j - 1], border[j])
    }
}

/// The coordinates that the first `steps` steps keep of a border: the first
/// point, then the middle point of each triple that is not straight. `y`
/// stands before `x`, since the image of the border is the mask with rows and
/// columns exchanged.
pub open spec fn corners_kept(border: Seq<(u32, u32)>, steps: int) -> Seq<u32>
    decreases steps,
{
    if steps <= 0 {
        seq![border[0].1, border[0].0]
    } else {
        let t = triple(border, steps - 1);
        if straight(t.0, t.1, t.2) {
            corners_kept(border, steps - 1)
        } else {
            corners_kept(border, steps - 1).push(t.1.1).push(t.1.0)
        }
    }
}

/// The outline that is made of a border: its corners, the points on straight
/// lines between them left out.
pub open spec fn outline_of(border: Seq<(u32, u32)>) -> Seq<u32> {
    corners_kept(border, border.len() as int + 1)
}

/// The outlines of the first `n` borders: borders of three points or fewer
/// are left out.
pub open spec fn outlines_of(borders: Seq<Seq<(u32, u32)>>, n: int) -> Seq<Seq<u32>>
    decreases n,
{
    if n <= 0 {
        Seq::empty()
    } else if borders[n - 1].len() > 3 {
        outlines_of(borders, n - 1).push(outline_of(borders[n - 1]))
    } else {
        outlines_of(borders, n - 1)
    }
}

/// The whole numbers as numbers of an annotation.
pub open spec fn numbers(coordinates: Seq<u32>) -> Seq<Binary64> {
    coordinates.map_values(|n: u32| Binary64::of_nat(n as nat))
}

/// The outlines in whole numbers as polygons.
pub open spec fn polygons_of(coordinates: Seq<Seq<u32>>) -> Seq<Seq<Binary64>> {
    coordinates.map_values(|outline: Seq<u32>| numbers(outline))
}

/// The outline of one border.
pub fn outline_from_border(border: &Vec<(u32, u32)>) -> (outline: Vec<Binary64>)
    requires
        border.len() > 3,
    ensures
        outline@ == numbers(outline_of(border@)),
{
    let n = border.len();
    let mut outline: Vec<Binary64> = Vec::new();
    outline.push(Binary64::from_u32(border[0].1));
    outline.push(Binary64::from_u32(border[0].0));
    assert(outline@ =~= numbers(corners_kept(border@, 0)));
    let mut prev_prev = border[0];
    let mut prev = border[1];
    let mut j: usize = 0;
    while j < n
        invariant
            n == border.len(),
            n > 3,
            j <= n,
            prev_prev == triple(border@, j as int).0,
            prev == triple(border@, j as int).1,
            outline@ == numbers(corners_kept(border@, j as int)),
        decreases n - j,
    {
        let point = border[j];
        if !((prev_prev.0 == prev.0 && prev.0 == point.0) || (prev_prev.1 == prev.1 && prev.1
            == point.1)) {
            outline.push(Binary64::from_u32(prev.1));
            outline.push(Binary64::from_u32(prev.0));
            assert(outline@ =~= numbers(corners_kept(border@, j + 1)));
        }
        prev_prev = prev;
        prev = point;
        j = j + 1;
    }
    let first = border[0];
    if !((prev_prev.0 == prev.0 && prev.0 == first.0) || (prev_prev.1 == prev.1 && prev.1
        == first.1)) {
        outline.push(Binary64::from_u32(prev.1));
        outline.push(Binary64::from_u32(prev.0));
        assert(outline@ =~= numbers(outline_of(border@)));
    }
    outline
}

/// The outlines of the borders.
pub fn outlines_from_borders(borders: &Vec<Vec<(u32, u32)>>) -> (polygons: Polygons)
    ensures
        outlines(polygons) == polygons_of(outlines_of(borders_view(*borders), borders.len() as int)),
{
    let mut polygons: Polygons = Vec::new();
    let ghost all = borders_view(*borders);
    assert(outlines(polygons) =~= polygons_of(outlines_of(all, 0)));
    let mut i: usize = 0;
    while i < borders.len()
        invariant
            i <= borders.len(),
            all == borders_view(*borders),
            outlines(polygons) == polygons_of(outlines_of(all, i as int)),
        decreases borders.len() - i,
    {
        let border = &borders[i];
        assert(all[i as int] == border@);
        // A border of three points or fewer is no outline.
        if border.len() > 3 {
            let outline = outline_from_border(border);
            let ghost before = outlines(polygons);
            polygons.push(outline);
            assert(outlines(polygons) =~= before.push(outline@));
            assert(outlines(polygons) =~= polygons_of(outlines_of(all, i + 1)));
        }
        i = i + 1;
    }
    polygons
}

/// The corners of an outline as whole numbers: each coordinate rounded
/// toward zero and held within 32 bits.
pub open spec fn corners_of(outline: Seq<Binary64>) -> Seq<(i32, i32)> {
    Seq::new(
        outline.len() / 2,
        |i: int|
            (
                clamp(outline[2 * i].truncated(), i32::MIN as int, i32::MAX as int) as i32,
                clamp(outline[2 * i + 1].truncated(), i32::MIN as int, i32::MAX as int) as i32,
            ),
    )
}

/// The corners without the last one, where that is the first one again.
pub open spec fn open_path(corners: Seq<(i32, i32)>) -> Seq<(i32, i32)> {
    if corners.len() > 0 && corners.last() == corners[0] {
        corners.drop_last()
    } else {
        corners
    }
}

/// The corners of an outline as whole numbers.
pub fn corners_from_outline(outline: &Vec<Binary64>) -> (corners: Vec<(i32, i32)>)
    requires
        outline.len() % 2 == 0,
    ensures
        corners@ == corners_of(outline@),
{
    let mut corners: Vec<(i32, i32)> = Vec::new();
    let mut i: usize = 0;
    while i < outline.len()
        invariant
            outline.len() % 2 == 0,
            i % 2 == 0,
            i <= outline.len(),
            corners@ == corners_of(outline@).take(i as int / 2),
        decreases outline.len() - i,
    {
        let x = outline[i].to_i32();
        let y = outline[i + 1].to_i32();
        corners.push((x, y));
        i = i + 2;
        assert(corners@ =~= corners_of(outline@).take(i as int / 2));
    }
    assert(corners@ =~= corners_of(outline@));
    corners
}

/// Whether the corners lie within the range in which a polygon is filled.
pub fn in_range(corners: &Vec<(i32, i32)>) -> (r: bool)
    ensures
        r == corners_in_range(corners@),
{
    let limit: i32 = 0x4000_0000;
    let mut i: usize = 0;
    while i < corners.len()
        invariant
            i <= corners.len(),
            limit == LIMIT,
            forall|k: int|
                0 <= k < i ==> -LIMIT < (#[trigger] corners[k]).0 < LIMIT && -LIMIT
                    < corners[k].1 < LIMIT,
        decreases corners.len() - i,
    {
        let c = corners[i];
        if c.0 <= -limit || c.0 >= limit || c.1 <= -limit || c.1 >= limit {
            return false;
        }
        i = i + 1;
    }
    true
}

} // verus!
