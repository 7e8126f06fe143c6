//! What is derived from a segmentation: its area and its bounding box.
use crate::binary64::{clamp, Binary64};
use crate::coco::object_detection::{
    outlines, Bbox, CocoRle, CocoRleView, Polygons, PolygonsRS, PolygonsRSView, Rle, RleView,
};
use crate::mask::compress::{decodable, decode, trim};
use crate::mask::conversions::{
    compressed, lemma_compressed_bytes, lemma_ints_of_counts, mask_from_poly,
    mask_of_poly, mask_of_polygons, poly_can_be_filled, poly_fits, polygons_countable, sized,
    rle_of_coco_rle, rle_of_mask,
};
use crate::mask::runs::{
    as_ints, lemma_prefix_sum_grows, lemma_runs_count, lemma_runs_of_background,
    non_negative, prefix_sum, runs,
};
use crate::mask::MaskView;
use vstd::prelude::*;

verus! {

/// The places, in column-major order, of the first and of the last pixel of
/// each run of the object among the first `n` runs. A run without pixels has
/// none.
pub open spec fn object_ends(counts: Seq<u32>, n: int) -> Seq<int>
    decreases n,
{
    if n <= 0 {
        Seq::empty()
    } else if n % 2 == 0 && counts[n - 1] > 0 {
        object_ends(counts, n - 1).push(prefix_sum(as_ints(counts), n - 1)).push(
            prefix_sum(as_ints(counts), n) - 1,
        )
    } else {
        object_ends(counts, n - 1)
    }
}

/// The pixels at which the object begins or ends a run.
pub open spec fn borders(counts: Seq<u32>) -> Seq<int> {
    object_ends(counts, counts.len() as int)
}

/// The least entry of `s`; 0 where it has none.
pub open spec fn least(s: Seq<int>) -> int
    decreases s.len(),
{
    if s.len() == 0 {
        0
    } else if s.len() == 1 {
        s[0]
    } else if s.last() < least(s.drop_last()) {
        s.last()
    } else {
        least(s.drop_last())
    }
}

/// The greatest entry of `s`; 0 where it has none.
pub open spec fn greatest(s: Seq<int>) -> int
    decreases s.len(),
{
    if s.len() == 0 {
        0
    } else if s.len() == 1 {
        s[0]
    } else if s.last() > greatest(s.drop_last()) {
        s.last()
    } else {
        greatest(s.drop_last())
    }
}

/// The columns of the pixels at the given places, in an image of the given
/// height.
pub open spec fn columns_of(places: Seq<int>, height: int) -> Seq<int> {
    places.map_values(|p: int| p / height)
}

/// The rows of the pixels at the given places, in an image of the given
/// height.
pub open spec fn rows_of(places: Seq<int>, height: int) -> Seq<int> {
    places.map_values(|p: int| p % height)
}

/// The columns of the borders, in an image of the given height.
pub open spec fn border_columns(counts: Seq<u32>, height: int) -> Seq<int> {
    columns_of(borders(counts), height)
}

/// The rows of the borders, in an image of the given height.
pub open spec fn border_rows(counts: Seq<u32>, height: int) -> Seq<int> {
    rows_of(borders(counts), height)
}

/// The box with the given sides: left, top, width and height.
pub open spec fn box_of(left: int, top: int, width: int, height: int) -> Bbox {
    Bbox {
        left: Binary64::of_nat(left as nat),
        top: Binary64::of_nat(top as nat),
        width: Binary64::of_nat(width as nat),
        height: Binary64::of_nat(height as nat),
    }
}

/// The bounding box of run lengths: from the least to the greatest column and
/// row of the pixels at which the object begins or ends a run. Runs that hold
/// no pixel of the object have the box of zeros.
pub open spec fn rle_box(rle: RleView) -> Bbox {
    let columns = border_columns(rle.counts, rle.size[0] as int);
    let rows = border_rows(rle.counts, rle.size[0] as int);
    box_of(
        least(columns),
        least(rows),
        greatest(columns) - least(columns),
        greatest(rows) - least(rows),
    )
}

/// What `Bbox::from_rle` asks of run lengths that may hold an object: an
/// image height to divide by, and pixels that can be counted in 32 bits.
pub open spec fn rle_box_defined(rle: RleView) -> bool {
    rle.counts.len() > 1 ==> {
        &&& rle.size.len() == 2
        &&& rle.size[0] > 0
        &&& prefix_sum(as_ints(rle.counts), rle.counts.len() as int) <= u32::MAX
    }
}

/// The least and the greatest entry after one more entry.
proof fn lemma_extremes_push(s: Seq<int>, x: int)
    ensures
        least(s.push(x)) == if s.len() == 0 || x < least(s) {
            x
        } else {
            least(s)
        },
        greatest(s.push(x)) == if s.len() == 0 || x > greatest(s) {
            x
        } else {
            greatest(s)
        },
{
    assert(s.push(x).drop_last() =~= s);
}

/// Up to one run there is no run of the object.
proof fn lemma_no_object(counts: Seq<u32>)
    requires
        counts.len() <= 1,
    ensures
        borders(counts).len() == 0,
{
    assert(object_ends(counts, 0).len() == 0);
    assert(object_ends(counts, 1) == object_ends(counts, 0));
}

impl Bbox {
    /// The bounding box of run lengths: the least and the greatest column and
    /// row among the pixels at which the object begins or ends a run.
    pub fn from_rle(rle: &Rle) -> (bbox: Bbox)
        requires
            rle_box_defined(rle@),
        ensures
            bbox == rle_box(rle@),
    {
        let n = rle.counts.len();
        if n <= 1 {
            proof {
                lemma_no_object(rle.counts@);
            }
            let zero = Binary64::from_u32(0);
            return Bbox { left: zero, top: zero, width: zero, height: zero };
        }
        let height = rle.size[0];
        let ghost counts = rle.counts@;
        let ghost lengths = as_ints(counts);
        let mut pos: u32 = 0;
        let mut left: u32 = 0;
        let mut right: u32 = 0;
        let mut top: u32 = 0;
        let mut bot: u32 = 0;
        let mut found = false;
        let mut i: usize = 0;
        while i < n
            invariant
                n == rle.counts.len(),
                counts == rle.counts@,
                found == (object_ends(counts, i as int).len() > 0),
                height > 0,
                i <= n,
                lengths == as_ints(counts),
                non_negative(lengths),
                prefix_sum(lengths, n as int) <= u32::MAX,
                pos == prefix_sum(lengths, i as int),
                left == least(columns_of(object_ends(counts, i as int), height as int)),
                right == greatest(columns_of(object_ends(counts, i as int), height as int)),
                top == least(rows_of(object_ends(counts, i as int), height as int)),
                bot == greatest(rows_of(object_ends(counts, i as int), height as int)),
            decreases n - i,
        {
            let count = rle.counts[i];
            let ghost before = object_ends(counts, i as int);
            proof {
                lemma_prefix_sum_grows(lengths, i + 1, n as int);
                assert(lengths[i as int] == count);
            }
            if i % 2 == 1 && count > 0 {
                let first = pos;
                let last = pos + (count - 1);
                let ghost h = height as int;
                proof {
                    let columns = columns_of(before, h);
                    let rows = rows_of(before, h);
                    assert(object_ends(counts, i + 1) == before.push(first as int).push(
                        last as int,
                    ));
                    assert(columns_of(before.push(first as int).push(last as int), h)
                        =~= columns.push(first as int / h).push(last as int / h));
                    assert(rows_of(before.push(first as int).push(last as int), h) =~= rows.push(
                        first as int % h,
                    ).push(last as int % h));
                    lemma_extremes_push(columns, first as int / h);
                    lemma_extremes_push(columns.push(first as int / h), last as int / h);
                    lemma_extremes_push(rows, first as int % h);
                    lemma_extremes_push(rows.push(first as int % h), last as int % h);
                    assert(columns.len() == before.len());
                    assert(rows.len() == before.len());
                }
                let (x, y) = (first / height, first % height);
                if !found || x < left {
                    left = x;
                }
                if !found || x > right {
                    right = x;
                }
                if !found || y < top {
                    top = y;
                }
                if !found || y > bot {
                    bot = y;
                }
                let (x, y) = (last / height, last % height);
                if x < left {
                    left = x;
                }
                if x > right {
                    right = x;
                }
                if y < top {
                    top = y;
                }
                if y > bot {
                    bot = y;
                }
                found = true;
            } else {
                assert(object_ends(counts, i + 1) == before);
            }
            pos = pos + count;
            i += 1;
        }
        proof {
            lemma_extremes_ordered(border_columns(counts, height as int));
            lemma_extremes_ordered(border_rows(counts, height as int));
        }
        Bbox {
            left: Binary64::from_u32(left),
            top: Binary64::from_u32(top),
            width: Binary64::from_u32(right - left),
            height: Binary64::from_u32(bot - top),
        }
    }
}

/// The least entry is not above the greatest one.
proof fn lemma_extremes_ordered(s: Seq<int>)
    ensures
        least(s) <= greatest(s),
    decreases s.len(),
{
    if s.len() > 1 {
        lemma_extremes_ordered(s.drop_last());
    }
}

/// What `Bbox::from_coco_rle` asks of compressed run lengths: that they hold
/// run lengths of which the bounding box can be taken.
pub open spec fn coco_rle_box_defined(coco_rle: CocoRleView) -> bool {
    decodable(coco_rle.bytes()) && rle_box_defined(rle_of_coco_rle(coco_rle))
}

impl Rle {
    /// Whether the bounding box of the run lengths can be taken.
    pub fn has_box(&self) -> (r: bool)
        ensures
            r == rle_box_defined(self@),
    {
        let n = self.counts.len();
        if n <= 1 {
            return true;
        }
        if self.size.len() != 2 || self.size[0] == 0 {
            return false;
        }
        let ghost lengths = as_ints(self.counts@);
        let mut sum: u64 = 0;
        let mut i: usize = 0;
        while i < n
            invariant
                n == self.counts.len(),
                i <= n,
                lengths == as_ints(self.counts@),
                non_negative(lengths),
                sum == prefix_sum(lengths, i as int),
                sum <= u32::MAX,
            decreases n - i,
        {
            proof {
                lemma_prefix_sum_grows(lengths, i + 1, n as int);
            }
            sum = sum + self.counts[i] as u64;
            if sum > u32::MAX as u64 {
                return false;
            }
            i = i + 1;
        }
        true
    }
}

impl CocoRle {
    /// Whether the bounding box of the compressed run lengths can be taken.
    pub fn has_box(&self) -> (r: bool)
        ensures
            r == coco_rle_box_defined(self@),
    {
        match self.decode() {
            Some(rle) => rle.has_box(),
            None => false,
        }
    }
}

impl Bbox {
    /// The bounding box of compressed run lengths: that of the run lengths
    /// that they hold.
    pub fn from_coco_rle(coco_rle: &CocoRle) -> (bbox: Bbox)
        requires
            coco_rle_box_defined(coco_rle@),
        ensures
            bbox == rle_box(rle_of_coco_rle(coco_rle@)),
    {
        let rle = Rle::from_coco_rle(coco_rle);
        Bbox::from_rle(&rle)
    }
}

/// The run lengths of a mask of background only have the box of zeros.
pub proof fn lemma_background_box(mask: MaskView)
    requires
        forall|k: int| 0 <= k < mask.cells.len() ==> mask.cells[k] == 0,
    ensures
        rle_box(rle_of_mask(mask)) == box_of(0, 0, 0, 0),
{
    lemma_runs_of_background(mask.cells);
    lemma_no_object(rle_of_mask(mask).counts);
}

/// The sum of those of the first `n` run lengths that count pixels of the
/// object: the second, the fourth, and so on.
pub open spec fn object_sum(counts: Seq<int>, n: int) -> int
    decreases n,
{
    if n <= 0 {
        0
    } else if (n - 1) % 2 == 1 {
        object_sum(counts, n - 1) + counts[n - 1]
    } else {
        object_sum(counts, n - 1)
    }
}

/// The number of pixels of the object that the run lengths count.
pub open spec fn object_pixels(counts: Seq<int>) -> int {
    object_sum(counts, counts.len() as int)
}

/// The pixels of the object are among all the pixels.
pub proof fn lemma_object_sum_bounds(counts: Seq<int>, m: int, n: int)
    requires
        non_negative(counts),
        0 <= m <= n <= counts.len(),
    ensures
        0 <= object_sum(counts, m) <= object_sum(counts, n) <= prefix_sum(counts, n),
    decreases n,
{
    if n > 0 {
        if m < n {
            lemma_object_sum_bounds(counts, m, n - 1);
        } else {
            lemma_object_sum_bounds(counts, m - 1, n - 1);
        }
    }
}

/// The sum over the first runs does not depend on the runs after them.
pub proof fn lemma_object_sum_take(counts: Seq<int>, n: int, m: int)
    requires
        0 <= n <= m <= counts.len(),
    ensures
        object_sum(counts.take(m), n) == object_sum(counts, n),
    decreases n,
{
    if n > 0 {
        lemma_object_sum_take(counts, n - 1, m);
    }
}

/// Empty runs at the end count no pixel of the object.
pub proof fn lemma_trim_keeps_object(counts: Seq<int>)
    ensures
        object_pixels(trim(counts)) == object_pixels(counts),
    decreases counts.len(),
{
    if counts.len() > 0 && counts.last() == 0 {
        lemma_trim_keeps_object(counts.drop_last());
        lemma_object_sum_take(counts, counts.len() - 1, counts.len() - 1);
        assert(counts.take(counts.len() - 1) =~= counts.drop_last());
    }
}

/// The number of pixels of the object among the first `n` pixels.
pub open spec fn object_count(cells: Seq<u8>, n: int) -> int
    decreases n,
{
    if n <= 0 {
        0
    } else if cells[n - 1] != 0 {
        object_count(cells, n - 1) + 1
    } else {
        object_count(cells, n - 1)
    }
}

/// The count among the first pixels does not depend on the pixels after
/// them.
pub proof fn lemma_object_count_take(cells: Seq<u8>, n: int, m: int)
    requires
        0 <= n <= m <= cells.len(),
    ensures
        object_count(cells.take(m), n) == object_count(cells, n),
    decreases n,
{
    if n > 0 {
        lemma_object_count_take(cells, n - 1, m);
    }
}

/// The run lengths of a mask of background and object count as many pixels
/// of the object as the mask has.
pub proof fn lemma_area_of_mask(cells: Seq<u8>)
    requires
        crate::mask::runs::binary(cells),
    ensures
        object_pixels(runs(cells)) == object_count(cells, cells.len() as int),
    decreases cells.len(),
{
    let after = runs(cells);
    crate::mask::runs::lemma_runs(cells);
    if cells.len() > 0 {
        let shorter = cells.drop_last();
        let before = runs(shorter);
        lemma_area_of_mask(shorter);
        crate::mask::runs::lemma_runs(shorter);
        lemma_runs_count(shorter);
        lemma_object_count_take(cells, cells.len() - 1, cells.len() - 1);
        assert(cells.take(cells.len() - 1) =~= shorter);
        let previous = if cells.len() == 1 {
            0u8
        } else {
            cells[cells.len() - 2]
        };
        assert(previous == if shorter.len() == 0 {
            0u8
        } else {
            shorter.last()
        });
        lemma_object_sum_take(after, after.len() - 1, after.len() - 1);
        if cells.last() != previous {
            assert(after.take(after.len() - 1) =~= before);
        } else {
            lemma_object_sum_take(before, before.len() - 1, before.len() - 1);
            assert(after.take(after.len() - 1) =~= before.take(before.len() - 1));
            assert(object_pixels(before) == object_sum(before, before.len() - 1) + (if (
            before.len() - 1) % 2 == 1 {
                before.last()
            } else {
                0
            }));
        }
    } else {
        assert(object_sum(after, 0) == 0);
    }
}

/// The number of pixels of the object that a segmentation covers.
pub trait Area {
    /// What is asked of the segmentation for its area to be taken.
    spec fn measurable(&self) -> bool;

    /// The number of pixels of the object.
    spec fn pixels(&self) -> int;

    /// Whether the area can be taken.
    fn is_measurable(&self) -> (r: bool)
        ensures
            r == self.measurable(),
    ;

    fn area(&self) -> (area: u32)
        requires
            self.measurable(),
        ensures
            area == self.pixels(),
    ;
}

/// Whether the pixels of the object can be counted in 32 bits.
fn object_runs_fit(counts: &Vec<u32>) -> (r: bool)
    ensures
        r == (object_pixels(as_ints(counts@)) <= u32::MAX),
{
    let ghost lengths = as_ints(counts@);
    let mut sum: u64 = 0;
    let mut i: usize = 0;
    while i < counts.len()
        invariant
            i <= counts.len(),
            lengths == as_ints(counts@),
            non_negative(lengths),
            sum == object_sum(lengths, i as int),
            sum <= u32::MAX,
        decreases counts.len() - i,
    {
        proof {
            lemma_object_sum_bounds(lengths, i + 1, lengths.len() as int);
        }
        if i % 2 == 1 {
            sum = sum + counts[i] as u64;
            if sum > u32::MAX as u64 {
                return false;
            }
        }
        i = i + 1;
    }
    true
}

/// The sum of the run lengths that count pixels of the object.
fn sum_object_runs(counts: &Vec<u32>) -> (sum: u32)
    requires
        object_pixels(as_ints(counts@)) <= u32::MAX,
    ensures
        sum == object_pixels(as_ints(counts@)),
{
    let ghost lengths = as_ints(counts@);
    let mut sum: u32 = 0;
    let mut i: usize = 0;
    while i < counts.len()
        invariant
            i <= counts.len(),
            lengths == as_ints(counts@),
            non_negative(lengths),
            object_pixels(lengths) <= u32::MAX,
            sum == object_sum(lengths, i as int),
        decreases counts.len() - i,
    {
        proof {
            lemma_object_sum_bounds(lengths, i + 1, lengths.len() as int);
        }
        if i % 2 == 1 {
            sum = sum + counts[i];
        }
        i = i + 1;
    }
    sum
}

impl Area for Rle {
    /// The pixels of the object can be counted in 32 bits.
    open spec fn measurable(&self) -> bool {
        object_pixels(as_ints(self@.counts)) <= u32::MAX
    }

    open spec fn pixels(&self) -> int {
        object_pixels(as_ints(self@.counts))
    }

    fn is_measurable(&self) -> (r: bool) {
        object_runs_fit(&self.counts)
    }

    fn area(&self) -> (area: u32) {
        sum_object_runs(&self.counts)
    }
}

impl Area for CocoRle {
    /// The characters hold run lengths, of which the pixels of the object can
    /// be counted in 32 bits.
    open spec fn measurable(&self) -> bool {
        decodable(self@.bytes()) && object_pixels(decode(self@.bytes())) <= u32::MAX
    }

    open spec fn pixels(&self) -> int {
        object_pixels(decode(self@.bytes()))
    }

    fn is_measurable(&self) -> (r: bool) {
        match self.decode() {
            Some(rle) => {
                proof {
                    lemma_decoded_in_range(self@);
                }
                object_runs_fit(&rle.counts)
            },
            None => false,
        }
    }

    fn area(&self) -> (area: u32) {
        let rle = Rle::from_coco_rle(self);
        proof {
            lemma_decoded_in_range(self@);
        }
        sum_object_runs(&rle.counts)
    }
}

/// The run lengths that compressed run lengths hold are of 32 bits.
pub proof fn lemma_decoded_in_range(coco_rle: CocoRleView)
    requires
        decodable(coco_rle.bytes()),
    ensures
        as_ints(rle_of_coco_rle(coco_rle).counts) == decode(coco_rle.bytes()),
{
    let all = crate::mask::compress::restore(crate::mask::compress::parse(coco_rle.bytes()).unwrap());
    lemma_trim_in_range(all);
    lemma_ints_of_counts(decode(coco_rle.bytes()));
}

/// What is left of run lengths of 32 bits are run lengths of 32 bits.
pub proof fn lemma_trim_in_range(counts: Seq<int>)
    requires
        crate::mask::compress::in_range(counts),
    ensures
        crate::mask::compress::in_range(trim(counts)),
    decreases counts.len(),
{
    if counts.len() > 0 && counts.last() == 0 {
        let shorter = counts.drop_last();
        assert forall|i: int| 0 <= i < shorter.len() implies 0 <= #[trigger] shorter[i]
            <= u32::MAX by {
            assert(shorter[i] == counts[i]);
        }
        lemma_trim_in_range(shorter);
    }
}

impl Area for PolygonsRS {
    /// The polygons can be turned into run lengths.
    open spec fn measurable(&self) -> bool {
        polygons_countable(self@)
    }

    open spec fn pixels(&self) -> int {
        object_pixels(runs(mask_of_polygons(self@).cells))
    }

    fn is_measurable(&self) -> (r: bool) {
        self.is_countable()
    }

    fn area(&self) -> (area: u32) {
        match Rle::try_from_polygons(self) {
            Ok(rle) => {
                proof {
                    lemma_polygon_mask_size(self@);
                    lemma_mask_runs_in_range(mask_of_polygons(self@));
                }
                sum_object_runs(&rle.counts)
            },
            Err(_) => vstd::pervasive::unreached(),
        }
    }
}

/// The mask that polygons fill has the pixels of their image.
pub proof fn lemma_polygon_mask_size(polygons: PolygonsRSView)
    requires
        polygons.size.len() == 2,
    ensures
        mask_of_polygons(polygons).cells.len() == polygons.size[0] * polygons.size[1],
{
    let height = polygons.size[0] as int;
    let width = polygons.size[1] as int;
    assert(height * width == width * height) by (nonlinear_arith);
    if height == 0 || width == 0 {
        assert(height * width == 0) by (nonlinear_arith)
            requires
                height == 0 || width == 0,
        ;
    }
}

/// The run lengths of a mask of at most `u32::MAX` pixels are of 32 bits,
/// and so is the number of pixels of the object.
pub proof fn lemma_mask_runs_in_range(mask: MaskView)
    requires
        mask.cells.len() <= u32::MAX,
    ensures
        as_ints(rle_of_mask(mask).counts) == runs(mask.cells),
        0 <= object_pixels(runs(mask.cells)) <= u32::MAX,
{
    let lengths = runs(mask.cells);
    lemma_runs_count(mask.cells);
    lemma_ints_of_counts(lengths);
    lemma_object_sum_bounds(lengths, 0, lengths.len() as int);
}

/// The same mask has the same area, whether it is held as run lengths, as
/// compressed run lengths or as polygons.
pub proof fn lemma_area_agrees(mask: MaskView, polygons: PolygonsRSView)
    requires
        mask.cells.len() <= u32::MAX,
        mask_of_polygons(polygons) == mask,
    ensures
        object_pixels(as_ints(rle_of_mask(mask).counts)) == object_pixels(
            decode(compressed(rle_of_mask(mask)).bytes()),
        ),
        object_pixels(as_ints(rle_of_mask(mask).counts)) == object_pixels(
            runs(mask_of_polygons(polygons).cells),
        ),
        decodable(compressed(rle_of_mask(mask)).bytes()),
{
    lemma_mask_runs_in_range(mask);
    lemma_area_kept_by_compression(rle_of_mask(mask));
}

/// Run lengths and their compressed form count the same pixels of the
/// object.
pub proof fn lemma_area_kept_by_compression(rle: RleView)
    ensures
        decodable(compressed(rle).bytes()),
        object_pixels(decode(compressed(rle).bytes())) == object_pixels(as_ints(rle.counts)),
{
    lemma_compressed_bytes(rle);
    crate::mask::compress::lemma_parse_encode_first(rle.counts, rle.counts.len() as int);
    assert(crate::mask::compress::deltas(rle.counts).take(rle.counts.len() as int)
        =~= crate::mask::compress::deltas(rle.counts));
    crate::mask::compress::lemma_restore_deltas(rle.counts);
    lemma_trim_keeps_object(as_ints(rle.counts));
}

/// Every other coordinate of an outline, from place `start` on: the `x`
/// coordinates from place 0, the `y` coordinates from place 1.
pub open spec fn every_other(outline: Seq<Binary64>, start: int) -> Seq<Binary64> {
    Seq::new(
        if outline.len() > start {
            ((outline.len() - start + 1) / 2) as nat
        } else {
            0
        },
        |i: int| outline[start + 2 * i],
    )
}

/// The number that comes last in the total order; zero where there is none.
pub open spec fn highest(values: Seq<Binary64>) -> Binary64
    decreases values.len(),
{
    if values.len() == 0 {
        Binary64 { bits: 0 }
    } else if values.len() == 1 {
        values[0]
    } else if values.last().rank() >= highest(values.drop_last()).rank() {
        values.last()
    } else {
        highest(values.drop_last())
    }
}

/// The number that comes first in the total order; zero where there is none.
pub open spec fn lowest(values: Seq<Binary64>) -> Binary64
    decreases values.len(),
{
    if values.len() == 0 {
        Binary64 { bits: 0 }
    } else if values.len() == 1 {
        values[0]
    } else if values.last().rank() < lowest(values.drop_last()).rank() {
        values.last()
    } else {
        lowest(values.drop_last())
    }
}

/// The highest or the lowest of the numbers.
pub open spec fn best(values: Seq<Binary64>, high: bool) -> Binary64 {
    if high {
        highest(values)
    } else {
        lowest(values)
    }
}

/// For each outline the highest or the lowest of its `x` or `y` coordinates.
pub open spec fn bests(polygons: Seq<Seq<Binary64>>, start: int, high: bool) -> Seq<Binary64> {
    polygons.map_values(|outline: Seq<Binary64>| best(every_other(outline, start), high))
}

/// The highest or the lowest `x` or `y` coordinate of the polygons.
pub open spec fn extreme(polygons: Seq<Seq<Binary64>>, start: int, high: bool) -> Binary64 {
    best(bests(polygons, start, high), high)
}

/// The sides of the smallest upright rectangle around polygons.
#[derive(Clone, Copy, Debug, PartialEq, Eq, Structural)]
pub struct Extent {
    pub left: Binary64,
    pub right: Binary64,
    pub top: Binary64,
    pub bottom: Binary64,
}

/// The least and the greatest `x` and `y` among the corners of the polygons.
/// An outline without corners counts as a corner at zero, and so do polygons
/// without outlines.
pub open spec fn extent_of(polygons: Seq<Seq<Binary64>>) -> Extent {
    Extent {
        left: extreme(polygons, 0, false),
        right: extreme(polygons, 0, true),
        top: extreme(polygons, 1, false),
        bottom: extreme(polygons, 1, true),
    }
}

/// The better of the best so far and one more number.
fn better(so_far: Binary64, count: usize, next: Binary64, high: bool) -> (r: Binary64)
    ensures
        r == if count == 0 {
            next
        } else if high {
            if next.rank() >= so_far.rank() {
                next
            } else {
                so_far
            }
        } else {
            if next.rank() < so_far.rank() {
                next
            } else {
                so_far
            }
        },
{
    if count == 0 {
        next
    } else if high {
        if so_far.total_le(next) {
            next
        } else {
            so_far
        }
    } else {
        if so_far.total_le(next) {
            so_far
        } else {
            next
        }
    }
}

/// The highest or the lowest of every other coordinate of an outline.
fn best_every_other(outline: &Vec<Binary64>, start: usize, high: bool) -> (r: Binary64)
    requires
        start <= 1,
    ensures
        r == best(every_other(outline@, start as int), high),
{
    let ghost values = every_other(outline@, start as int);
    let mut best_so_far = Binary64 { bits: 0 };
    let mut count: usize = 0;
    let mut i: usize = start;
    assert(values.take(0) =~= Seq::<Binary64>::empty());
    while i < outline.len()
        invariant
            start <= 1,
            values == every_other(outline@, start as int),
            i < outline.len() ==> i == start + 2 * count && count < values.len(),
            i >= outline.len() ==> count == values.len(),
            best_so_far == best(values.take(count as int), high),
        decreases outline.len() - i,
    {
        proof {
            assert(values.take(count + 1).drop_last() =~= values.take(count as int));
            assert(values[count as int] == outline[i as int]);
        }
        best_so_far = better(best_so_far, count, outline[i], high);
        count = count + 1;
        if outline.len() - i < 2 {
            i = outline.len();
        } else {
            i = i + 2;
        }
    }
    assert(values.take(count as int) =~= values);
    best_so_far
}

/// The highest or the lowest `x` or `y` coordinate of the polygons.
fn extreme_coordinate(polygons: &Polygons, start: usize, high: bool) -> (r: Binary64)
    requires
        start <= 1,
    ensures
        r == extreme(outlines(*polygons), start as int, high),
{
    let ghost values = bests(outlines(*polygons), start as int, high);
    let mut best_so_far = Binary64 { bits: 0 };
    let mut i: usize = 0;
    assert(values.take(0) =~= Seq::<Binary64>::empty());
    while i < polygons.len()
        invariant
            start <= 1,
            i <= polygons.len(),
            values == bests(outlines(*polygons), start as int, high),
            values.len() == polygons.len(),
            best_so_far == best(values.take(i as int), high),
        decreases polygons.len() - i,
    {
        proof {
            assert(values.take(i + 1).drop_last() =~= values.take(i as int));
            assert(outlines(*polygons)[i as int] == polygons[i as int]@);
        }
        let one = best_every_other(&polygons[i], start, high);
        best_so_far = better(best_so_far, i, one, high);
        i = i + 1;
    }
    assert(values.take(i as int) =~= values);
    best_so_far
}

/// The least and the greatest `x` and `y` among the corners of the polygons:
/// the sides of their bounding box.
pub fn extent(polygons: &Polygons) -> (r: Extent)
    ensures
        r == extent_of(outlines(*polygons)),
{
    Extent {
        left: extreme_coordinate(polygons, 0, false),
        right: extreme_coordinate(polygons, 0, true),
        top: extreme_coordinate(polygons, 1, false),
        bottom: extreme_coordinate(polygons, 1, true),
    }
}

impl PolygonsRS {
    /// The sides of the bounding box of the polygons.
    pub fn extent(&self) -> (r: Extent)
        ensures
            r == extent_of(self@.counts),
    {
        extent(&self.counts)
    }
}

/// The bounding box with the given sides: its width and its height are the
/// differences of the sides that lie across.
pub open spec fn box_between(sides: Extent) -> Bbox {
    Bbox {
        left: sides.left,
        top: sides.top,
        width: sides.right.difference(sides.left),
        height: sides.bottom.difference(sides.top),
    }
}

impl Bbox {
    /// The bounding box of polygons: it reaches from the least to the
    /// greatest `x` and `y` among their corners.
    pub fn from_polygons(polygons: &Polygons) -> (bbox: Bbox)
        ensures
            bbox == box_between(extent_of(outlines(*polygons))),
    {
        let sides = extent(polygons);
        Bbox {
            left: sides.left,
            top: sides.top,
            width: sides.right.sub(sides.left),
            height: sides.bottom.sub(sides.top),
        }
    }

    /// The bounding box of polygons with the size of their image: that of
    /// the polygons.
    pub fn from_polygons_rs(polygons: &PolygonsRS) -> (bbox: Bbox)
        ensures
            bbox == box_between(extent_of(polygons@.counts)),
    {
        Bbox::from_polygons(&polygons.counts)
    }
}

/// The width of the image that polygons without a size are filled in for
/// their area: their greatest `x`, as a whole number of 32 bits.
pub open spec fn inferred_width(polygons: Seq<Seq<Binary64>>) -> u32 {
    clamp(extreme(polygons, 0, true).truncated(), 0, u32::MAX as int) as u32
}

/// The height of the image that polygons without a size are filled in for
/// their area: their greatest `y`, as a whole number of 32 bits.
pub open spec fn inferred_height(polygons: Seq<Seq<Binary64>>) -> u32 {
    clamp(extreme(polygons, 1, true).truncated(), 0, u32::MAX as int) as u32
}

impl Area for Polygons {
    /// The polygons can be filled in the image that reaches to their greatest
    /// coordinates, and that image has at most `u32::MAX` pixels.
    open spec fn measurable(&self) -> bool {
        &&& poly_fits(
            outlines(*self),
            inferred_width(outlines(*self)),
            inferred_height(outlines(*self)),
        )
        &&& inferred_width(outlines(*self)) * inferred_height(outlines(*self)) <= u32::MAX
    }

    /// The pixels of the object in the mask that the polygons fill in the
    /// image that reaches to their greatest coordinates.
    open spec fn pixels(&self) -> int {
        object_pixels(
            runs(
                mask_of_poly(
                    outlines(*self),
                    inferred_width(outlines(*self)),
                    inferred_height(outlines(*self)),
                ).cells,
            ),
        )
    }

    fn is_measurable(&self) -> (r: bool) {
        let width = extreme_coordinate(self, 0, true).to_u32();
        let height = extreme_coordinate(self, 1, true).to_u32();
        assert(width as u64 * height as u64 <= 0xFFFF_FFFF * 0xFFFF_FFFF) by (nonlinear_arith)
            requires
                height <= 0xFFFF_FFFF,
                width <= 0xFFFF_FFFF,
        ;
        poly_can_be_filled(self, width, height) && width as u64 * height as u64 <= u32::MAX as u64
    }

    fn area(&self) -> (area: u32) {
        let width = extreme_coordinate(self, 0, true).to_u32();
        let height = extreme_coordinate(self, 1, true).to_u32();
        match mask_from_poly(self, width, height) {
            Ok(mask) => {
                proof {
                    assert(height as int * width as int == width as int * height as int)
                        by (nonlinear_arith);
                    lemma_polygon_mask_size(sized(outlines(*self), width, height));
                }
                let rle = Rle::from_mask(&mask);
                proof {
                    lemma_mask_runs_in_range(mask@);
                }
                sum_object_runs(&rle.counts)
            },
            Err(_) => vstd::pervasive::unreached(),
        }
    }
}

/// Without an outline there is no pixel of the object.
pub proof fn lemma_area_of_no_polygons(polygons: Polygons)
    requires
        polygons.len() == 0,
    ensures
        polygons.measurable(),
        polygons.pixels() == 0,
{
    let none = outlines(polygons);
    assert(none.len() == 0);
    assert(bests(none, 0, true).len() == 0);
    assert(bests(none, 1, true).len() == 0);
    assert(Binary64 { bits: 0 }.truncated() == 0) by {
        vstd::arithmetic::power2::lemma_pow2_pos(1074);
    }
    assert(inferred_width(none) == 0);
    assert(inferred_height(none) == 0);
    assert(mask_of_poly(none, 0, 0).cells.len() == 0);
    assert(runs(Seq::<u8>::empty()) =~= seq![0int]);
    assert(mask_of_poly(none, 0, 0).cells =~= Seq::<u8>::empty());
    reveal_with_fuel(object_sum, 3);
}

} // verus!
