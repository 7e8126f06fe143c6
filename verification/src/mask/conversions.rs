//! The conversions between the encodings of a segmentation mask.
use crate::binary64::Binary64;
use crate::coco::object_detection::{
    self, outlines, AnnotationView, CocoRle, CocoRleView, HashmapDataset, HashmapDatasetView,
    Polygons, PolygonsRS, PolygonsRSView, Rle, RleView, SegmentationView,
};
use crate::mask::outline::{
    borders_found, corners_from_outline, corners_in_range, corners_of, fill_polygon, find_borders,
    in_range, is_open_path, open_path, outlines_from_borders, outlines_of, polygon_filled,
    polygons_of, LIMIT,
};
use crate::errors::MaskError;
use crate::mask::compress::{
    decodable, decode, decode_counts, deltas, encode, encode_counts, lemma_decode_inverts_encode,
    lemma_encode_first_in_alphabet,
};
use crate::mask::runs::{
    as_counts, as_ints, binary, cells_of_runs, expand_to, lemma_expand_len, lemma_prefix_sum_grows,
    lemma_runs, lemma_runs_count, non_negative, prefix_sum, runs, runs_of_cells, total,
};
use crate::mask::{shape_fits, transposed, Mask, MaskView};
use vstd::prelude::*;
use vstd::string::StringSliceAdditionalSpecFns;
use vstd::utf8::{decode_utf8, encode_utf8, valid_utf8};

verus! {

/// `core::str::from_utf8`: it succeeds on the bytes that are UTF-8, and on no
/// others, and the text that it gives is made of these bytes.
pub assume_specification[ core::str::from_utf8 ](v: &[u8]) -> (text: Result<
    &str,
    core::str::Utf8Error,
>)
    ensures
        text is Ok <==> valid_utf8(v@),
        text matches Ok(s) ==> s.spec_bytes() == v@,
;

/// The encodings that a segmentation can be converted to.
#[derive(Copy, Clone, Debug, PartialEq, Eq, PartialOrd, Ord, Structural)]
pub enum Segmentation {
    Polygons,
    Rle,
    CocoRle,
}

impl CocoRleView {
    /// The characters as bytes.
    pub open spec fn bytes(self) -> Seq<u8> {
        encode_utf8(self.counts)
    }
}

/// The run lengths in their compressed form, with the same size.
pub open spec fn compressed(rle: RleView) -> CocoRleView {
    CocoRleView { size: rle.size, counts: decode_utf8(encode(rle.counts)) }
}

impl CocoRle {
    /// The compressed form of the run lengths. The two errors cannot occur.
    pub fn try_from_rle(rle: &Rle) -> (r: Result<CocoRle, MaskError>)
        ensures
            r matches Ok(coco_rle) && coco_rle@ == compressed(rle@),
    {
        let coco_counts = match encode_counts(&rle.counts) {
            Ok(bytes) => bytes,
            Err(err) => {
                return Err(err);
            },
        };
        proof {
            lemma_encoded_is_text(rle@.counts);
        }
        let text = match core::str::from_utf8(coco_counts.as_slice()) {
            Ok(text) => text,
            Err(err) => {
                return Err(MaskError::StrConversion(err, coco_counts.clone()));
            },
        };
        proof {
            vstd::utf8::encode_utf8_decode_utf8(text@);
        }
        Ok(CocoRle { size: rle.size.clone(), counts: text.to_owned() })
    }
}

/// The bytes of compressed run lengths are their characters.
pub proof fn lemma_compressed_bytes(rle: RleView)
    ensures
        compressed(rle).bytes() == encode(rle.counts),
{
    lemma_encoded_is_text(rle.counts);
    vstd::utf8::decode_utf8_encode_utf8(encode(rle.counts));
}

/// Run lengths that do not end in an empty run are read back from their
/// compressed form as they were.
pub proof fn lemma_rle_round_trip(rle: RleView)
    requires
        rle.counts.len() == 0 || rle.counts.last() != 0,
    ensures
        decodable(compressed(rle).bytes()),
        rle_of_coco_rle(compressed(rle)) == rle,
{
    lemma_compressed_bytes(rle);
    lemma_decode_inverts_encode(rle.counts);
    lemma_counts_of_ints(rle.counts);
}

/// The characters of compressed run lengths are text.
pub proof fn lemma_encoded_is_text(counts: Seq<u32>)
    ensures
        valid_utf8(encode(counts)),
{
    let bytes = encode(counts);
    lemma_encode_first_in_alphabet(deltas(counts), counts.len() as int);
    let chars = Seq::new(bytes.len(), |i: int| bytes[i] as char);
    assert(vstd::utf8::is_ascii_chars(chars));
    vstd::utf8::is_ascii_chars_encode_utf8(chars);
    assert(encode_utf8(chars) =~= bytes);
    vstd::utf8::encode_utf8_valid_utf8(chars);
}

/// The run lengths of a mask.
pub open spec fn rle_of_mask(mask: MaskView) -> RleView {
    RleView {
        size: seq![mask.height as u32, mask.width as u32],
        counts: as_counts(runs(mask.cells)),
    }
}

/// The mask that run lengths stand for.
pub open spec fn mask_of_rle(rle: RleView) -> MaskView {
    MaskView {
        height: rle.size[0] as nat,
        width: rle.size[1] as nat,
        cells: expand_to(as_ints(rle.counts), rle.size[0] as nat * rle.size[1] as nat),
    }
}

/// The run lengths that compressed run lengths hold.
pub open spec fn rle_of_coco_rle(coco_rle: CocoRleView) -> RleView {
    RleView { size: coco_rle.size, counts: as_counts(decode(coco_rle.bytes())) }
}

/// Run lengths can be turned into a mask: they come with the two lengths of
/// the image, an array of that size can be made, and they count no more
/// pixels than the image has.
pub open spec fn rle_fits(rle: RleView) -> bool {
    &&& rle.size.len() == 2
    &&& shape_fits(rle.size[0] as int, rle.size[1] as int)
    &&& total(as_ints(rle.counts)) <= rle.size[0] * rle.size[1]
}

/// Run lengths as whole numbers and back are the run lengths.
pub proof fn lemma_counts_of_ints(counts: Seq<u32>)
    ensures
        as_counts(as_ints(counts)) == counts,
{
    assert(as_counts(as_ints(counts)) =~= counts);
}

/// Whole numbers of 32 bits as run lengths and back are the whole numbers.
pub proof fn lemma_ints_of_counts(lengths: Seq<int>)
    requires
        crate::mask::compress::in_range(lengths),
    ensures
        as_ints(as_counts(lengths)) == lengths,
{
    assert(as_ints(as_counts(lengths)) =~= lengths);
}

impl CocoRle {
    /// The run lengths that the characters hold, if they hold any.
    pub fn decode(&self) -> (r: Option<Rle>)
        ensures
            r is Some <==> decodable(self@.bytes()),
            r matches Some(rle) ==> rle@ == rle_of_coco_rle(self@),
    {
        match decode_counts(self.counts.as_str().as_bytes()) {
            Some(counts) => {
                proof {
                    lemma_counts_of_ints(counts@);
                }
                Some(Rle { size: self.size.clone(), counts })
            },
            None => None,
        }
    }

    /// Whether the characters hold run lengths.
    pub fn is_decodable(&self) -> (r: bool)
        ensures
            r == decodable(self@.bytes()),
    {
        self.decode().is_some()
    }
}

impl Rle {
    /// The run lengths that the compressed run lengths hold. Empty runs at
    /// the end are left out.
    pub fn from_coco_rle(coco_rle: &CocoRle) -> (rle: Rle)
        requires
            decodable(coco_rle@.bytes()),
        ensures
            rle@ == rle_of_coco_rle(coco_rle@),
    {
        match coco_rle.decode() {
            Some(rle) => rle,
            None => vstd::pervasive::unreached(),
        }
    }

    /// The run lengths of a mask. Where neither side of the mask is longer
    /// than `u32::MAX`, they can be turned into the mask again.
    pub fn from_mask(mask: &Mask) -> (rle: Rle)
        requires
            mask@.height * mask@.width <= u32::MAX,
        ensures
            rle@ == rle_of_mask(mask@),
            mask@.height <= u32::MAX && mask@.width <= u32::MAX ==> rle_fits(rle@),
    {
        let height = mask.nrows();
        let width = mask.ncols();
        proof {
            lemma_sides(height as int, width as int, u32::MAX as int);
        }
        let cells = mask.cells();
        let counts = runs_of_cells(&cells);
        proof {
            lemma_counts_of_ints(counts@);
            lemma_runs_count(cells@);
            lemma_ints_of_counts(runs(cells@));
        }
        let mut size: Vec<u32> = Vec::new();
        size.push(height as u32);
        size.push(width as u32);
        assert(size@ =~= seq![height as u32, width as u32]);
        Rle { size, counts }
    }
}

impl Mask {
    /// The mask that the run lengths stand for: the pixels of each run in
    /// column-major order, and background where the runs end before the image.
    pub fn from_rle(rle: &Rle) -> (mask: Mask)
        requires
            rle_fits(rle@),
        ensures
            mask@ == mask_of_rle(rle@),
    {
        let height = rle.size[0] as usize;
        let width = rle.size[1] as usize;
        proof {
            lemma_shape_size(height as int, width as int);
        }
        let cells = cells_of_runs(&rle.counts, height * width);
        match Mask::from_cells(height, width, cells) {
            Ok(mask) => mask,
            Err(_) => vstd::pervasive::unreached(),
        }
    }
}

/// An image that has pixels has no side longer than the number of its
/// pixels.
pub proof fn lemma_sides(height: int, width: int, limit: int)
    requires
        0 <= height,
        0 <= width,
        height * width <= limit,
        0 <= limit,
    ensures
        height * width == 0 || (height <= limit && width <= limit),
{
    assert(height * width == 0 || (height <= limit && width <= limit)) by (nonlinear_arith)
        requires
            0 <= height,
            0 <= width,
            height * width <= limit,
            0 <= limit,
    ;
}

/// An array that can be made has at most `isize::MAX` elements.
pub proof fn lemma_shape_size(height: int, width: int)
    requires
        0 <= height,
        0 <= width,
        shape_fits(height, width),
    ensures
        0 <= height * width <= isize::MAX,
{
    assert(0 <= height * width <= isize::MAX) by (nonlinear_arith)
        requires
            0 <= height,
            0 <= width,
            (if height == 0 {
                1
            } else {
                height
            }) * (if width == 0 {
                1
            } else {
                width
            }) <= isize::MAX,
    ;
}

/// A mask of background and object is the mask of its run lengths.
pub proof fn lemma_mask_round_trip(mask: MaskView)
    requires
        binary(mask.cells),
        mask.cells.len() == mask.height * mask.width,
        mask.height * mask.width <= u32::MAX,
        mask.height <= u32::MAX,
        mask.width <= u32::MAX,
    ensures
        mask_of_rle(rle_of_mask(mask)) == mask,
        rle_fits(rle_of_mask(mask)) <==> shape_fits(mask.height as int, mask.width as int),
{
    let lengths = runs(mask.cells);
    lemma_runs(mask.cells);
    lemma_runs_count(mask.cells);
    lemma_ints_of_counts(lengths);
    lemma_expand_len(lengths);
    assert(expand_to(lengths, mask.cells.len()) =~= mask.cells);
}

/// The borders of the object can be followed: the run lengths can be turned
/// into a mask, and neither a side nor the number of pixels of the image
/// reaches `LIMIT`.
pub open spec fn rle_traceable(rle: RleView) -> bool {
    &&& rle_fits(rle)
    &&& rle.size[0] < LIMIT
    &&& rle.size[1] < LIMIT
    &&& rle.size[0] * rle.size[1] < LIMIT
}

/// The outlines of the object that the run lengths stand for. The borders
/// are followed in the image that has the rows of the mask as its columns.
pub open spec fn rle_outlines(rle: RleView) -> Seq<Seq<Binary64>> {
    let found = borders_found(rle.size[0], rle.size[1], mask_of_rle(rle).cells);
    polygons_of(outlines_of(found, found.len() as int))
}

/// The polygons of a mask, with the size of the mask.
pub open spec fn polygons_of_mask(mask: MaskView) -> PolygonsRSView {
    PolygonsRSView { size: rle_of_mask(mask).size, counts: rle_outlines(rle_of_mask(mask)) }
}

/// The borders of the object in a mask can be followed.
pub open spec fn mask_traceable(mask: MaskView) -> bool {
    &&& mask.height < LIMIT
    &&& mask.width < LIMIT
    &&& mask.height * mask.width < LIMIT
}

/// The image of the given size with background only.
pub open spec fn blank(width: u32, height: u32) -> Seq<u8> {
    Seq::new((width * height) as nat, |k: int| 0u8)
}

/// The pixels, row by row, after the first `n` outlines have been filled one
/// after the other.
pub open spec fn canvas_after(width: u32, height: u32, polygons: Seq<Seq<Binary64>>, n: int) -> Seq<
    u8,
>
    decreases n,
{
    if n <= 0 {
        blank(width, height)
    } else {
        polygon_filled(
            width,
            height,
            canvas_after(width, height, polygons, n - 1),
            open_path(corners_of(polygons[n - 1])),
        )
    }
}

/// The mask that polygons fill. An image without pixels is left as it is.
pub open spec fn mask_of_polygons(polygons: PolygonsRSView) -> MaskView {
    let height = polygons.size[0];
    let width = polygons.size[1];
    MaskView {
        height: height as nat,
        width: width as nat,
        cells: if height == 0 || width == 0 {
            Seq::empty()
        } else {
            transposed(
                canvas_after(width, height, polygons.counts, polygons.counts.len() as int),
                width as int,
                height as int,
            )
        },
    }
}

/// An outline can be filled: its coordinates come in pairs, it is not a
/// single point over and over, and its corners lie within `LIMIT`.
pub open spec fn outline_drawable(outline: Seq<Binary64>) -> bool {
    &&& outline.len() % 2 == 0
    &&& is_open_path(open_path(corners_of(outline)))
    &&& corners_in_range(open_path(corners_of(outline)))
}

/// Polygons can be turned into a mask: they come with the two lengths of the
/// image, both under `LIMIT`, an array of that size can be made, and each
/// outline can be filled.
pub open spec fn polygons_fit(polygons: PolygonsRSView) -> bool {
    &&& polygons.size.len() == 2
    &&& polygons.size[0] < LIMIT
    &&& polygons.size[1] < LIMIT
    &&& shape_fits(polygons.size[0] as int, polygons.size[1] as int)
    &&& forall|i: int|
        0 <= i < polygons.counts.len() ==> outline_drawable(#[trigger] polygons.counts[i])
}

/// The outlines of the object that the run lengths stand for.
pub fn polygons_from_rle(rle: &Rle) -> (polygons: Polygons)
    requires
        rle_traceable(rle@),
    ensures
        outlines(polygons) == rle_outlines(rle@),
{
    let height = rle.size[0];
    let width = rle.size[1];
    let cells = cells_of_runs(&rle.counts, height as usize * width as usize);
    let borders = find_borders(height, width, cells);
    assert(borders@.map_values(|border: Vec<(u32, u32)>| border@).len() == borders.len());
    outlines_from_borders(&borders)
}

/// The outlines of the object in a mask.
pub fn poly_from_mask(mask: &Mask) -> (polygons: Polygons)
    requires
        mask_traceable(mask@),
    ensures
        outlines(polygons) == polygons_of_mask(mask@).counts,
{
    let rle = Rle::from_mask(mask);
    proof {
        lemma_rle_of_mask_traceable(mask@);
    }
    polygons_from_rle(&rle)
}

/// The run lengths of a mask whose borders can be followed can be turned into
/// polygons.
pub proof fn lemma_rle_of_mask_traceable(mask: MaskView)
    requires
        mask_traceable(mask),
        mask.cells.len() == mask.height * mask.width,
    ensures
        rle_traceable(rle_of_mask(mask)),
{
    let lengths = runs(mask.cells);
    lemma_runs_count(mask.cells);
    lemma_ints_of_counts(lengths);
    lemma_sides(mask.height as int, mask.width as int, LIMIT as int);
    assert(shape_fits(mask.height as int, mask.width as int));
}

impl PolygonsRS {
    /// The polygons of a mask, with the size of the mask.
    pub fn from_mask(mask: &Mask) -> (polygons: PolygonsRS)
        requires
            mask_traceable(mask@),
        ensures
            polygons@ == polygons_of_mask(mask@),
    {
        let rle = Rle::from_mask(mask);
        proof {
            lemma_rle_of_mask_traceable(mask@);
        }
        let counts = polygons_from_rle(&rle);
        PolygonsRS { size: rle.size, counts }
    }
}

/// The corners without the last one, where that is the first one again.
fn open_corners(corners: Vec<(i32, i32)>) -> (opened: Vec<(i32, i32)>)
    ensures
        opened@ == open_path(corners@),
{
    let mut corners = corners;
    let n = corners.len();
    if n > 0 {
        let first = corners[0];
        let last = corners[n - 1];
        if first.0 == last.0 && first.1 == last.1 {
            corners.pop();
        }
    }
    corners
}

/// An image of `n` pixels of background.
fn blank_canvas(n: usize) -> (canvas: Vec<u8>)
    ensures
        canvas@ == Seq::new(n as nat, |k: int| 0u8),
{
    let mut canvas: Vec<u8> = Vec::new();
    while canvas.len() < n
        invariant
            canvas.len() <= n,
            canvas@ == Seq::new(canvas.len() as nat, |k: int| 0u8),
        decreases n - canvas.len(),
    {
        canvas.push(0);
        assert(canvas@ =~= Seq::new(canvas.len() as nat, |k: int| 0u8));
    }
    canvas
}

impl Mask {
    /// The mask that polygons fill: each outline is filled in turn on one
    /// image, so that the mask is the union of them. An outline whose last
    /// point is its first point again is taken without that point.
    pub fn try_from_polygons(poly_ann: &PolygonsRS) -> (r: Result<Mask, MaskError>)
        requires
            polygons_fit(poly_ann@),
        ensures
            r matches Ok(mask) && mask@ == mask_of_polygons(poly_ann@),
    {
        let height = poly_ann.size[0];
        let width = poly_ann.size[1];
        proof {
            lemma_shape_size(height as int, width as int);
        }
        let mut canvas = blank_canvas(height as usize * width as usize);
        if width > 0 && height > 0 {
            let ghost polygons = outlines(poly_ann.counts);
            assert(polygons == poly_ann@.counts);
            assert(canvas@ =~= blank(width, height));
            let mut i: usize = 0;
            while i < poly_ann.counts.len()
                invariant
                    i <= poly_ann.counts.len(),
                    0 < width < LIMIT,
                    0 < height < LIMIT,
                    polygons == outlines(poly_ann.counts),
                    forall|k: int|
                        0 <= k < polygons.len() ==> outline_drawable(#[trigger] polygons[k]),
                    canvas.len() == width * height,
                    canvas@ == canvas_after(width, height, polygons, i as int),
                decreases poly_ann.counts.len() - i,
            {
                let poly = &poly_ann.counts[i];
                assert(polygons[i as int] == poly@);
                let points_poly = open_corners(corners_from_outline(poly));
                canvas = fill_polygon(width, height, canvas, &points_poly);
                i = i + 1;
            }
            assert(width as usize * height as usize == height as usize * width as usize)
                by (nonlinear_arith);
        }
        proof {
            if height == 0 || width == 0 {
                assert(height * width == 0) by (nonlinear_arith)
                    requires
                        height == 0 || width == 0,
                ;
                assert(transposed(canvas@, width as int, height as int) =~= Seq::<u8>::empty());
            }
        }
        Mask::from_shape_vec(height as usize, width as usize, canvas)
    }
}

/// The polygons with the size of an image of the given width and height.
pub open spec fn sized(polygons: Seq<Seq<Binary64>>, width: u32, height: u32) -> PolygonsRSView {
    PolygonsRSView { size: seq![height, width], counts: polygons }
}

/// The polygons can be filled in an image of the given size: the sides are
/// under `LIMIT`, an array of that size can be made, and each outline can be
/// filled.
pub open spec fn poly_fits(polygons: Seq<Seq<Binary64>>, width: u32, height: u32) -> bool {
    polygons_fit(sized(polygons, width, height))
}

/// The mask that the polygons fill in an image of the given size: that of
/// the polygons with that size.
pub open spec fn mask_of_poly(polygons: Seq<Seq<Binary64>>, width: u32, height: u32) -> MaskView {
    mask_of_polygons(sized(polygons, width, height))
}

/// A copy of the polygons, with the size of an image of the given width and
/// height.
fn with_size(poly: &Polygons, width: u32, height: u32) -> (polygons: PolygonsRS)
    ensures
        polygons@ == sized(outlines(*poly), width, height),
{
    let mut size: Vec<u32> = Vec::new();
    size.push(height);
    size.push(width);
    assert(size@ =~= seq![height, width]);
    PolygonsRS { size, counts: object_detection::copy_polygons(poly) }
}

/// The mask that the polygons fill in an image of the given size: every
/// outline is filled, as for polygons that hold their size.
pub fn mask_from_poly(poly: &Polygons, width: u32, height: u32) -> (r: Result<Mask, MaskError>)
    requires
        poly_fits(outlines(*poly), width, height),
    ensures
        r matches Ok(mask) && mask@ == mask_of_poly(outlines(*poly), width, height),
{
    Mask::try_from_polygons(&with_size(poly, width, height))
}

/// Polygons can be turned into run lengths: they can be turned into a mask
/// of at most `u32::MAX` pixels.
pub open spec fn polygons_countable(polygons: PolygonsRSView) -> bool {
    polygons_fit(polygons) && polygons.size[0] * polygons.size[1] <= u32::MAX
}

impl Rle {
    /// The run lengths of the mask that the polygons fill.
    pub fn try_from_polygons(poly: &PolygonsRS) -> (r: Result<Rle, MaskError>)
        requires
            polygons_countable(poly@),
        ensures
            r matches Ok(rle) && rle@ == rle_of_mask(mask_of_polygons(poly@)),
    {
        match Mask::try_from_polygons(poly) {
            Ok(mask) => Ok(Rle::from_mask(&mask)),
            Err(err) => Err(err),
        }
    }
}

impl CocoRle {
    /// The compressed run lengths of the mask that the polygons fill.
    pub fn try_from_polygons(poly: &PolygonsRS) -> (r: Result<CocoRle, MaskError>)
        requires
            polygons_countable(poly@),
        ensures
            r matches Ok(coco_rle) && coco_rle@ == compressed(
                rle_of_mask(mask_of_polygons(poly@)),
            ),
    {
        match Rle::try_from_polygons(poly) {
            Ok(rle) => CocoRle::try_from_rle(&rle),
            Err(err) => Err(err),
        }
    }

    /// The compressed run lengths of a mask.
    pub fn try_from_mask(mask: &Mask) -> (r: Result<CocoRle, MaskError>)
        requires
            mask@.height * mask@.width <= u32::MAX,
        ensures
            r matches Ok(coco_rle) && coco_rle@ == compressed(rle_of_mask(mask@)),
    {
        CocoRle::try_from_rle(&Rle::from_mask(mask))
    }
}

/// The segmentation can be turned into a mask. Polygons without a size never
/// can, and nothing is asked of them.
pub open spec fn segmentation_fits(segmentation: SegmentationView) -> bool {
    match segmentation {
        SegmentationView::Rle(rle) => rle_fits(rle),
        SegmentationView::CocoRle(coco_rle) => decodable(coco_rle.bytes()) && rle_fits(
            rle_of_coco_rle(coco_rle),
        ),
        SegmentationView::PolygonsRS(polygons) => polygons_fit(polygons),
        SegmentationView::Polygons(_) => true,
    }
}

/// The mask of a segmentation that is not polygons without a size.
pub open spec fn mask_of_segmentation(segmentation: SegmentationView) -> MaskView {
    match segmentation {
        SegmentationView::Rle(rle) => mask_of_rle(rle),
        SegmentationView::CocoRle(coco_rle) => mask_of_rle(rle_of_coco_rle(coco_rle)),
        SegmentationView::PolygonsRS(polygons) => mask_of_polygons(polygons),
        SegmentationView::Polygons(_) => arbitrary(),
    }
}

impl Mask {
    /// The mask of a segmentation. Polygons without the size of their image
    /// have no mask: for them the conversion fails.
    pub fn try_from_segmentation(coco_segmentation: &object_detection::Segmentation) -> (r: Result<
        Mask,
        MaskError,
    >)
        requires
            segmentation_fits(coco_segmentation@),
        ensures
            coco_segmentation@ is Polygons ==> (r matches Err(e) && e is UnsupportedConversion),
            !(coco_segmentation@ is Polygons) ==> (r matches Ok(mask) && mask@
                == mask_of_segmentation(coco_segmentation@)),
    {
        match coco_segmentation {
            object_detection::Segmentation::Rle(rle) => Ok(Mask::from_rle(rle)),
            object_detection::Segmentation::CocoRle(coco_rle) => Ok(
                Mask::from_rle(&Rle::from_coco_rle(coco_rle)),
            ),
            object_detection::Segmentation::PolygonsRS(poly) => Mask::try_from_polygons(poly),
            object_detection::Segmentation::Polygons(_) => Err(MaskError::UnsupportedConversion),
        }
    }
}

/// The segmentation can be converted to the target: what the conversion
/// passes through can be made. Nothing is asked where the segmentation is
/// kept as it is, nor of polygons without a size, which are never converted.
pub open spec fn convertible(segmentation: SegmentationView, target: Segmentation) -> bool {
    match (segmentation, target) {
        (SegmentationView::Rle(rle), Segmentation::Polygons) => rle_traceable(rle),
        (SegmentationView::CocoRle(coco_rle), Segmentation::Rle) => decodable(coco_rle.bytes()),
        (SegmentationView::CocoRle(coco_rle), Segmentation::Polygons) => decodable(
            coco_rle.bytes(),
        ) && rle_traceable(rle_of_coco_rle(coco_rle)),
        (SegmentationView::PolygonsRS(polygons), Segmentation::Rle) => polygons_countable(polygons),
        (SegmentationView::PolygonsRS(polygons), Segmentation::CocoRle) => polygons_countable(
            polygons,
        ),
        _ => true,
    }
}

/// The segmentation in the encoding of the target. Polygons come with the
/// size of the image.
pub open spec fn converted(segmentation: SegmentationView, target: Segmentation) -> SegmentationView {
    match (segmentation, target) {
        (SegmentationView::Rle(rle), Segmentation::CocoRle) => SegmentationView::CocoRle(
            compressed(rle),
        ),
        (SegmentationView::Rle(rle), Segmentation::Polygons) => SegmentationView::PolygonsRS(
            PolygonsRSView { size: rle.size, counts: rle_outlines(rle) },
        ),
        (SegmentationView::CocoRle(coco_rle), Segmentation::Rle) => SegmentationView::Rle(
            rle_of_coco_rle(coco_rle),
        ),
        (SegmentationView::CocoRle(coco_rle), Segmentation::Polygons) => SegmentationView::PolygonsRS(
            PolygonsRSView {
                size: coco_rle.size,
                counts: rle_outlines(rle_of_coco_rle(coco_rle)),
            },
        ),
        (SegmentationView::PolygonsRS(polygons), Segmentation::Rle) => SegmentationView::Rle(
            rle_of_mask(mask_of_polygons(polygons)),
        ),
        (SegmentationView::PolygonsRS(polygons), Segmentation::CocoRle) => SegmentationView::CocoRle(
            compressed(rle_of_mask(mask_of_polygons(polygons))),
        ),
        _ => segmentation,
    }
}

/// The segmentation in the encoding of the target. Run lengths and
/// compressed run lengths are converted into each other directly, and from
/// and to polygons by way of the mask. Polygons without the size of their
/// image cannot be converted.
pub fn convert_segmentation(
    segmentation: &object_detection::Segmentation,
    target_segmentation: Segmentation,
) -> (r: Result<object_detection::Segmentation, MaskError>)
    requires
        convertible(segmentation@, target_segmentation),
    ensures
        segmentation@ is Polygons ==> (r matches Err(e) && e is UnsupportedConversion),
        !(segmentation@ is Polygons) ==> (r matches Ok(s) && s@ == converted(
            segmentation@,
            target_segmentation,
        )),
{
    match segmentation {
        object_detection::Segmentation::Rle(rle) => match target_segmentation {
            Segmentation::Rle => Ok(object_detection::Segmentation::Rle(rle.copy())),
            Segmentation::CocoRle => match CocoRle::try_from_rle(rle) {
                Ok(coco_rle) => Ok(object_detection::Segmentation::CocoRle(coco_rle)),
                Err(err) => Err(err),
            },
            Segmentation::Polygons => Ok(
                object_detection::Segmentation::PolygonsRS(
                    PolygonsRS { size: rle.size.clone(), counts: polygons_from_rle(rle) },
                ),
            ),
        },
        object_detection::Segmentation::CocoRle(coco_rle) => match target_segmentation {
            Segmentation::Rle => Ok(
                object_detection::Segmentation::Rle(Rle::from_coco_rle(coco_rle)),
            ),
            Segmentation::CocoRle => Ok(object_detection::Segmentation::CocoRle(coco_rle.copy())),
            Segmentation::Polygons => {
                let rle = Rle::from_coco_rle(coco_rle);
                let counts = polygons_from_rle(&rle);
                Ok(object_detection::Segmentation::PolygonsRS(PolygonsRS { size: rle.size, counts }))
            },
        },
        object_detection::Segmentation::PolygonsRS(poly) => match target_segmentation {
            Segmentation::Rle => match Rle::try_from_polygons(poly) {
                Ok(rle) => Ok(object_detection::Segmentation::Rle(rle)),
                Err(err) => Err(err),
            },
            Segmentation::CocoRle => match CocoRle::try_from_polygons(poly) {
                Ok(coco_rle) => Ok(object_detection::Segmentation::CocoRle(coco_rle)),
                Err(err) => Err(err),
            },
            Segmentation::Polygons => Ok(object_detection::Segmentation::PolygonsRS(poly.copy())),
        },
        object_detection::Segmentation::Polygons(_) => Err(MaskError::UnsupportedConversion),
    }
}

/// Every annotation of the dataset can be converted to the target.
pub open spec fn dataset_convertible(dataset: HashmapDatasetView, target: Segmentation) -> bool {
    forall|id: u32|
        dataset.anns.contains_key(id) ==> convertible(
            (#[trigger] dataset.anns[id]).segmentation,
            target,
        )
}

/// An annotation of the dataset holds polygons without a size.
pub open spec fn holds_polygons_without_size(dataset: HashmapDatasetView) -> bool {
    exists|id: u32|
        dataset.anns.contains_key(id) && (#[trigger] dataset.anns[id]).segmentation is Polygons
}

/// The annotation with its segmentation in the encoding of the target.
pub open spec fn converted_annotation(annotation: AnnotationView, target: Segmentation) -> AnnotationView {
    AnnotationView { segmentation: converted(annotation.segmentation, target), ..annotation }
}

/// The dataset with every segmentation in the encoding of the target.
pub open spec fn converted_dataset(dataset: HashmapDatasetView, target: Segmentation) -> HashmapDatasetView {
    HashmapDatasetView {
        anns: dataset.anns.map_values(|a: AnnotationView| converted_annotation(a, target)),
        ..dataset
    }
}

/// Converts every segmentation of the dataset to the target encoding. Where
/// one of them cannot be converted, the dataset is left as it was.
pub fn convert_coco_segmentation(
    dataset: &mut HashmapDataset,
    target_segmentation: Segmentation,
) -> (r: Result<(), MaskError>)
    requires
        dataset_convertible(old(dataset)@, target_segmentation),
    ensures
        match r {
            Ok(()) => !holds_polygons_without_size(old(dataset)@) && final(dataset)@
                == converted_dataset(old(dataset)@, target_segmentation),
            Err(error) => holds_polygons_without_size(old(dataset)@)
                && error is UnsupportedConversion && final(dataset)@ == old(dataset)@,
        },
        old(dataset)@.wf() ==> final(dataset)@.wf(),
{
    let ghost before = dataset@;
    let ids = dataset.annotation_ids();
    let mut segmentations: Vec<object_detection::Segmentation> = Vec::new();
    let mut i: usize = 0;
    while i < ids.len()
        invariant
            dataset@ == before,
            dataset_convertible(before, target_segmentation),
            ids@.to_set() == before.anns.dom(),
            i <= ids.len(),
            segmentations.len() == i,
            forall|h: int|
                0 <= h < i ==> (#[trigger] segmentations[h])@ == converted(
                    before.anns[ids[h]].segmentation,
                    target_segmentation,
                ) && !(before.anns[ids[h]].segmentation is Polygons),
        decreases ids.len() - i,
    {
        assert(ids@.to_set().contains(ids[i as int]));
        let ann = match dataset.get_ann(ids[i]) {
            Ok(ann) => ann,
            Err(_) => vstd::pervasive::unreached(),
        };
        assert(ann.segmentation@ == before.anns[ids[i as int]].segmentation);
        match convert_segmentation(&ann.segmentation, target_segmentation) {
            Ok(segmentation) => {
                segmentations.push(segmentation);
            },
            Err(error) => {
                return Err(error);
            },
        }
        i = i + 1;
    }
    proof {
        assert forall|id: u32| before.anns.contains_key(id) implies !((
        #[trigger] before.anns[id]).segmentation is Polygons) by {
            assert(ids@.to_set().contains(id));
            let h = choose|h: int| 0 <= h < ids.len() && ids[h] == id;
            assert(segmentations[h]@ == converted(
                before.anns[ids[h]].segmentation,
                target_segmentation,
            ));
            assert(!(before.anns[ids[h]].segmentation is Polygons));
        }
    }
    let ghost all = segmentations@;
    let mut k: usize = 0;
    for segmentation in iter: segmentations
        invariant
            iter.seq() == all,
            k == iter.index(),
            all.len() == ids.len(),
            ids@.no_duplicates(),
            ids@.to_set() == before.anns.dom(),
            forall|h: int|
                0 <= h < all.len() ==> (#[trigger] all[h])@ == converted(
                    before.anns[ids[h]].segmentation,
                    target_segmentation,
                ),
            dataset@.anns.dom() == before.anns.dom(),
            dataset@ == (HashmapDatasetView { anns: dataset@.anns, ..before }),
            forall|h: int|
                0 <= h < ids.len() ==> dataset@.anns[#[trigger] ids[h]] == if h < k {
                    converted_annotation(before.anns[ids[h]], target_segmentation)
                } else {
                    before.anns[ids[h]]
                },
    {
        let ghost now = dataset@;
        assert(ids@.to_set().contains(ids[k as int]));
        dataset.replace_segmentation(ids[k], segmentation);
        proof {
            assert(dataset@.anns.dom() =~= before.anns.dom());
            assert forall|h: int| 0 <= h < ids.len() implies dataset@.anns[#[trigger] ids[h]]
                == if h < k + 1 {
                converted_annotation(before.anns[ids[h]], target_segmentation)
            } else {
                before.anns[ids[h]]
            } by {
                if h != k {
                    assert(ids[h] != ids[k as int]);
                    assert(dataset@.anns[ids[h]] == now.anns[ids[h]]);
                }
            }
        }
        k = k + 1;
    }
    proof {
        let goal = converted_dataset(before, target_segmentation);
        assert forall|id: u32| before.anns.contains_key(id) implies dataset@.anns[id]
            == goal.anns[id] by {
            assert(ids@.to_set().contains(id));
            let h = choose|h: int| 0 <= h < ids.len() && ids[h] == id;
            assert(dataset@.anns[ids[h]] == converted_annotation(
                before.anns[ids[h]],
                target_segmentation,
            ));
        }
        assert(dataset@.anns =~= goal.anns);
    }
    Ok(())
}

/// Whether an array of `height` rows and `width` columns can be made.
pub fn shape_can_be_made(height: usize, width: usize) -> (r: bool)
    ensures
        r == shape_fits(height as int, width as int),
{
    let rows = if height == 0 {
        1
    } else {
        height
    };
    let columns = if width == 0 {
        1
    } else {
        width
    };
    match rows.checked_mul(columns) {
        Some(size) => size <= isize::MAX as usize,
        None => false,
    }
}

/// Whether the runs count at most `limit` pixels.
pub fn total_is_within(counts: &Vec<u32>, limit: u64) -> (r: bool)
    ensures
        r == (total(as_ints(counts@)) <= limit),
{
    let ghost lengths = as_ints(counts@);
    let mut sum: u64 = 0;
    let mut i: usize = 0;
    while i < counts.len()
        invariant
            i <= counts.len(),
            lengths == as_ints(counts@),
            non_negative(lengths),
            sum == prefix_sum(lengths, i as int),
            sum <= limit,
        decreases counts.len() - i,
    {
        proof {
            lemma_prefix_sum_grows(lengths, i + 1, lengths.len() as int);
        }
        if counts[i] as u64 > limit - sum {
            return false;
        }
        sum = sum + counts[i] as u64;
        i = i + 1;
    }
    true
}

impl Rle {
    /// Whether the run lengths can be turned into a mask.
    pub fn fits(&self) -> (r: bool)
        ensures
            r == rle_fits(self@),
    {
        if self.size.len() != 2 {
            return false;
        }
        let height = self.size[0];
        let width = self.size[1];
        assert(height as u64 * width as u64 <= 0xFFFF_FFFF * 0xFFFF_FFFF) by (nonlinear_arith)
            requires
                height <= 0xFFFF_FFFF,
                width <= 0xFFFF_FFFF,
        ;
        shape_can_be_made(height as usize, width as usize) && total_is_within(
            &self.counts,
            height as u64 * width as u64,
        )
    }

    /// Whether the borders of the object can be followed.
    pub fn is_traceable(&self) -> (r: bool)
        ensures
            r == rle_traceable(self@),
    {
        if !self.fits() {
            return false;
        }
        let height = self.size[0];
        let width = self.size[1];
        assert(height as u64 * width as u64 <= 0xFFFF_FFFF * 0xFFFF_FFFF) by (nonlinear_arith)
            requires
                height <= 0xFFFF_FFFF,
                width <= 0xFFFF_FFFF,
        ;
        height < LIMIT && width < LIMIT && (height as u64 * width as u64) < LIMIT as u64
    }
}

impl Mask {
    /// Whether the mask has at most `u32::MAX` pixels, so that its run
    /// lengths can be taken.
    pub fn is_countable(&self) -> (r: bool)
        ensures
            r == (self@.height * self@.width <= u32::MAX),
    {
        let height = self.nrows();
        let width = self.ncols();
        assert(height * width == width * height) by (nonlinear_arith);
        height * width <= u32::MAX as usize
    }

    /// Whether the borders of the object can be followed.
    pub fn is_traceable(&self) -> (r: bool)
        ensures
            r == mask_traceable(self@),
    {
        let height = self.nrows();
        let width = self.ncols();
        assert(height * width == width * height) by (nonlinear_arith);
        height < LIMIT as usize && width < LIMIT as usize && height * width < LIMIT as usize
    }
}

/// Whether the outline can be filled.
fn outline_can_be_filled(outline: &Vec<Binary64>) -> (r: bool)
    ensures
        r == outline_drawable(outline@),
{
    if outline.len() % 2 != 0 {
        return false;
    }
    let corners = open_corners(corners_from_outline(outline));
    let n = corners.len();
    if n > 0 {
        let first = corners[0];
        let last = corners[n - 1];
        if first.0 == last.0 && first.1 == last.1 {
            return false;
        }
    }
    in_range(&corners)
}

impl PolygonsRS {
    /// Whether the polygons can be turned into a mask.
    pub fn fits(&self) -> (r: bool)
        ensures
            r == polygons_fit(self@),
    {
        if self.size.len() != 2 {
            return false;
        }
        let height = self.size[0];
        let width = self.size[1];
        if height >= LIMIT || width >= LIMIT || !shape_can_be_made(
            height as usize,
            width as usize,
        ) {
            return false;
        }
        let ghost polygons = outlines(self.counts);
        assert(polygons == self@.counts);
        let mut i: usize = 0;
        while i < self.counts.len()
            invariant
                i <= self.counts.len(),
                polygons == outlines(self.counts),
                forall|k: int| 0 <= k < i ==> outline_drawable(#[trigger] polygons[k]),
            decreases self.counts.len() - i,
        {
            assert(polygons[i as int] == self.counts[i as int]@);
            if !outline_can_be_filled(&self.counts[i]) {
                assert(!outline_drawable(self@.counts[i as int]));
                return false;
            }
            i = i + 1;
        }
        true
    }

    /// Whether the polygons can be turned into run lengths.
    pub fn is_countable(&self) -> (r: bool)
        ensures
            r == polygons_countable(self@),
    {
        if !self.fits() {
            return false;
        }
        let height = self.size[0];
        let width = self.size[1];
        assert(height as u64 * width as u64 <= 0xFFFF_FFFF * 0xFFFF_FFFF) by (nonlinear_arith)
            requires
                height <= 0xFFFF_FFFF,
                width <= 0xFFFF_FFFF,
        ;
        height as u64 * width as u64 <= u32::MAX as u64
    }
}

/// Whether `mask_from_poly` can fill the polygons in an image of the given
/// size.
pub fn poly_can_be_filled(poly: &Polygons, width: u32, height: u32) -> (r: bool)
    ensures
        r == poly_fits(outlines(*poly), width, height),
{
    with_size(poly, width, height).fits()
}

impl object_detection::Segmentation {
    /// Whether the segmentation can be turned into a mask. Polygons without
    /// a size never can, and nothing is asked of them.
    pub fn fits(&self) -> (r: bool)
        ensures
            r == segmentation_fits(self@),
    {
        match self {
            object_detection::Segmentation::Rle(rle) => rle.fits(),
            object_detection::Segmentation::CocoRle(coco_rle) => match coco_rle.decode() {
                Some(rle) => rle.fits(),
                None => false,
            },
            object_detection::Segmentation::PolygonsRS(poly) => poly.fits(),
            object_detection::Segmentation::Polygons(_) => true,
        }
    }

    /// Whether the segmentation can be converted to the target.
    pub fn is_convertible(&self, target_segmentation: Segmentation) -> (r: bool)
        ensures
            r == convertible(self@, target_segmentation),
    {
        match self {
            object_detection::Segmentation::Rle(rle) => match target_segmentation {
                Segmentation::Polygons => rle.is_traceable(),
                _ => true,
            },
            object_detection::Segmentation::CocoRle(coco_rle) => match target_segmentation {
                Segmentation::Rle => coco_rle.is_decodable(),
                Segmentation::CocoRle => true,
                Segmentation::Polygons => match coco_rle.decode() {
                    Some(rle) => rle.is_traceable(),
                    None => false,
                },
            },
            object_detection::Segmentation::PolygonsRS(poly) => match target_segmentation {
                Segmentation::Polygons => true,
                _ => poly.is_countable(),
            },
            object_detection::Segmentation::Polygons(_) => true,
        }
    }
}

impl HashmapDataset {
    /// Whether every segmentation of the dataset can be converted to the
    /// target.
    pub fn is_convertible(&self, target_segmentation: Segmentation) -> (r: bool)
        ensures
            r == dataset_convertible(self@, target_segmentation),
    {
        let ids = self.annotation_ids();
        let mut i: usize = 0;
        while i < ids.len()
            invariant
                i <= ids.len(),
                ids@.to_set() == self@.anns.dom(),
                forall|h: int|
                    0 <= h < i ==> convertible(
                        self@.anns[#[trigger] ids[h]].segmentation,
                        target_segmentation,
                    ),
            decreases ids.len() - i,
        {
            assert(ids@.to_set().contains(ids[i as int]));
            let ann = match self.get_ann(ids[i]) {
                Ok(ann) => ann,
                Err(_) => vstd::pervasive::unreached(),
            };
            if !ann.segmentation.is_convertible(target_segmentation) {
                return false;
            }
            i = i + 1;
        }
        proof {
            assert forall|id: u32| self@.anns.contains_key(id) implies convertible(
                (#[trigger] self@.anns[id]).segmentation,
                target_segmentation,
            ) by {
                assert(ids@.to_set().contains(id));
                let h = choose|h: int| 0 <= h < ids.len() && ids[h] == id;
                assert(convertible(self@.anns[ids[h]].segmentation, target_segmentation));
            }
        }
        true
    }
}

} // verus!
