//! Segmentation masks and the conversions between their encodings.
use crate::errors::MaskError;
use vstd::prelude::*;

pub mod compress;
pub mod conversions;
pub mod outline;
pub mod runs;
pub mod utils;

verus! {

/// A mask: for each pixel of an image, 1 where it belongs to the object and 0
/// where it does not. The pixels are kept in a two-dimensional array of
/// `ndarray`.
#[verifier::external_body]
#[derive(Debug, PartialEq, Eq)]
pub struct Mask {
    array: ndarray::Array2<u8>,
}

/// The rows of a mask from top to bottom, each with its pixels from left to
/// right.
pub uninterp spec fn mask_rows(mask: Mask) -> Seq<Seq<u8>>;

/// The number of columns of a mask.
pub uninterp spec fn mask_ncols(mask: Mask) -> nat;

/// A mask as its size and its pixels in column-major order.
pub struct MaskView {
    pub height: nat,
    pub width: nat,
    pub cells: Seq<u8>,
}

impl View for Mask {
    type V = MaskView;

    open spec fn view(&self) -> MaskView {
        MaskView {
            height: mask_rows(*self).len(),
            width: mask_ncols(*self),
            cells: Seq::new(
                mask_rows(*self).len() * mask_ncols(*self),
                |k: int|
                    mask_rows(*self)[k % (mask_rows(*self).len() as int)][k / (mask_rows(
                        *self,
                    ).len() as int)],
            ),
        }
    }
}

/// An array of `height` rows and `width` columns can be made: the product of
/// those of the two lengths that are not 0 is at most `isize::MAX`.
pub open spec fn shape_fits(height: int, width: int) -> bool {
    (if height == 0 {
        1
    } else {
        height
    }) * (if width == 0 {
        1
    } else {
        width
    }) <= isize::MAX
}

/// The pixels of `rows` by `columns` pixels in row-major order, taken from
/// the same pixels in column-major order, or the other way round with the two
/// numbers exchanged.
pub open spec fn transposed(cells: Seq<u8>, rows: int, columns: int) -> Seq<u8> {
    Seq::new((rows * columns) as nat, |k: int| cells[(k % columns) * rows + k / columns])
}

impl Mask {
    /// The pixel in the given row and column.
    pub open spec fn at(self, row: int, column: int) -> u8 {
        mask_rows(self)[row][column]
    }

    /// `Array2::from_shape_vec` with a shape in column-major order: the array
    /// of `height` rows and `width` columns whose pixel in row `r` and column
    /// `c` is `cells[c * height + r]`. As `ndarray` documents, it fails where
    /// the shape does not have as many pixels as `cells`, or is too large.
    #[verifier::external_body]
    fn array_from_shape_vec(height: usize, width: usize, cells: Vec<u8>) -> (made: Result<Mask, ndarray::ShapeError>)
        ensures
            made is Ok <==> (cells.len() == height * width && shape_fits(height as int, width as int)),
            made matches Ok(mask) ==> mask_rows(mask).len() == height && mask_ncols(mask) == width,
            made matches Ok(mask) ==> (forall|row: int, column: int|
                0 <= row < height && 0 <= column < width ==> #[trigger] mask_rows(mask)[row][column]
                    == cells[column * height + row]),
    {
        let shape = ndarray::ShapeBuilder::f((height, width));
        ndarray::Array2::from_shape_vec(shape, cells).map(|array| Mask { array })
    }

    /// `ArrayBase::nrows`: the number of rows.
    #[verifier::external_body]
    fn array_nrows(&self) -> (n: usize)
        ensures
            n == mask_rows(*self).len(),
    {
        self.array.nrows()
    }

    /// `ArrayBase::ncols`: the number of columns. In an array of `ndarray`
    /// the product of the axis lengths that are not 0 is never more than
    /// `isize::MAX`, and so the number of its elements.
    #[verifier::external_body]
    fn array_ncols(&self) -> (n: usize)
        ensures
            n == mask_ncols(*self),
            n * mask_rows(*self).len() <= isize::MAX,
            shape_fits(mask_rows(*self).len() as int, n as int),
    {
        self.array.ncols()
    }

    /// Indexing of `ArrayBase` by `[row, column]`.
    #[verifier::external_body]
    fn array_get(&self, row: usize, column: usize) -> (value: u8)
        requires
            row < mask_rows(*self).len(),
            column < mask_ncols(*self),
        ensures
            value == mask_rows(*self)[row as int][column as int],
    {
        self.array[[row, column]]
    }

    /// The number of rows.
    pub fn nrows(&self) -> (n: usize)
        ensures
            n == self@.height,
    {
        self.array_nrows()
    }

    /// The number of columns. A mask is an array that can be made.
    pub fn ncols(&self) -> (n: usize)
        ensures
            n == self@.width,
            self@.height * self@.width <= isize::MAX,
            shape_fits(self@.height as int, self@.width as int),
    {
        let n = self.array_ncols();
        assert(self@.height * self@.width == n * mask_rows(*self).len()) by (nonlinear_arith)
            requires
                self@.height == mask_rows(*self).len(),
                self@.width == n,
        ;
        n
    }

    /// The pixel in the given row and column.
    pub fn get(&self, row: usize, column: usize) -> (value: u8)
        requires
            row < self@.height,
            column < self@.width,
        ensures
            value == self.at(row as int, column as int),
            value == self@.cells[column * self@.height + row],
    {
        proof {
            lemma_cell_index(row as int, column as int, self@.height as int, self@.width as int);
        }
        self.array_get(row, column)
    }

    /// The pixels in column-major order.
    pub fn cells(&self) -> (cells: Vec<u8>)
        ensures
            cells@ == self@.cells,
    {
        let height = self.nrows();
        let width = self.ncols();
        let mut cells: Vec<u8> = Vec::new();
        let mut column: usize = 0;
        while column < width
            invariant
                height == self@.height,
                width == self@.width,
                column <= width,
                height * width <= isize::MAX,
                cells@ == self@.cells.take(column * height),
            decreases width - column,
        {
            let mut row: usize = 0;
            proof {
                lemma_column_end(column as int, height as int, width as int);
            }
            while row < height
                invariant
                    height == self@.height,
                    width == self@.width,
                    column < width,
                    row <= height,
                    height * width <= isize::MAX,
                    column * height + height <= height * width,
                    cells@ == self@.cells.take(column * height + row),
                decreases height - row,
            {
                let value = self.get(row, column);
                cells.push(value);
                row = row + 1;
                assert(cells@ =~= self@.cells.take(column * height + row));
            }
            column = column + 1;
            assert(column * height == (column - 1) * height + height) by (nonlinear_arith);
        }
        assert(column * height == height * width) by (nonlinear_arith)
            requires
                column == width,
        ;
        assert(cells@ =~= self@.cells);
        cells
    }

    /// The mask of `height` rows and `width` columns with the given pixels in
    /// column-major order.
    pub fn from_cells(height: usize, width: usize, cells: Vec<u8>) -> (r: Result<Mask, MaskError>)
        ensures
            r is Ok <==> cells.len() == height * width && shape_fits(height as int, width as int),
            r matches Ok(mask) ==> mask@ == (MaskView {
                height: height as nat,
                width: width as nat,
                cells: cells@,
            }),
            r matches Err(e) ==> e is ImageToNDArrayConversion,
    {
        let ghost given = cells@;
        match Mask::array_from_shape_vec(height, width, cells) {
            Ok(mask) => {
                proof {
                    assert forall|k: int| 0 <= k < height * width implies mask@.cells[k]
                        == given[k] by {
                        lemma_cell_place(k, height as int, width as int);
                    }
                    assert(mask@.cells =~= given);
                }
                Ok(mask)
            },
            Err(error) => Err(MaskError::ImageToNDArrayConversion(error)),
        }
    }

    /// The mask of `height` rows and `width` columns with the given pixels in
    /// row-major order.
    pub fn from_shape_vec(height: usize, width: usize, data: Vec<u8>) -> (r: Result<
        Mask,
        MaskError,
    >)
        ensures
            r is Ok <==> data.len() == height * width && shape_fits(height as int, width as int),
            r matches Ok(mask) ==> mask@ == (MaskView {
                height: height as nat,
                width: width as nat,
                cells: transposed(data@, width as int, height as int),
            }),
            r matches Err(e) ==> e is ImageToNDArrayConversion,
    {
        let fits = match height.checked_mul(width) {
            Some(size) => size == data.len(),
            None => false,
        };
        if !fits {
            return Mask::from_cells(height, width, data);
        }
        assert(width * height == height * width) by (nonlinear_arith);
        let cells = transpose(&data, width, height);
        Mask::from_cells(height, width, cells)
    }
}

/// The pixels of `rows` by `columns` pixels in row-major order, taken from
/// the same pixels in column-major order, or the other way round with the two
/// numbers exchanged.
pub fn transpose(cells: &Vec<u8>, rows: usize, columns: usize) -> (out: Vec<u8>)
    requires
        cells.len() == rows * columns,
    ensures
        out@ == transposed(cells@, rows as int, columns as int),
{
    let mut out: Vec<u8> = Vec::new();
    let mut row: usize = 0;
    while row < rows
        invariant
            cells.len() == rows * columns,
            row <= rows,
            out@ == transposed(cells@, rows as int, columns as int).take(row * columns),
        decreases rows - row,
    {
        let mut column: usize = 0;
        proof {
            lemma_column_end(row as int, columns as int, rows as int);
        }
        while column < columns
            invariant
                cells.len() == rows * columns,
                row < rows,
                column <= columns,
                row * columns + columns <= rows * columns,
                out@ == transposed(cells@, rows as int, columns as int).take(
                    row * columns + column,
                ),
            decreases columns - column,
        {
            proof {
                lemma_cell_index(row as int, column as int, rows as int, columns as int);
                lemma_cell_index(column as int, row as int, columns as int, rows as int);
            }
            out.push(cells[column * rows + row]);
            column = column + 1;
            assert(out@ =~= transposed(cells@, rows as int, columns as int).take(
                row * columns + column,
            ));
        }
        row = row + 1;
        assert(row * columns == (row - 1) * columns + columns) by (nonlinear_arith);
    }
    assert(out@ =~= transposed(cells@, rows as int, columns as int));
    out
}

/// The place of a pixel in column-major order, and its row and column from
/// that place.
pub proof fn lemma_cell_index(row: int, column: int, height: int, width: int)
    requires
        0 <= row < height,
        0 <= column < width,
    ensures
        0 <= column * height + row < height * width,
        column * height + height <= height * width,
        (column * height + row) % height == row,
        (column * height + row) / height == column,
{
    assert(column * height + height <= height * width) by (nonlinear_arith)
        requires
            0 <= column < width,
            0 < height,
    ;
    assert(0 <= column * height) by (nonlinear_arith)
        requires
            0 <= column,
            0 < height,
    ;
    vstd::arithmetic::div_mod::lemma_fundamental_div_mod_converse(
        column * height + row,
        height,
        column,
        row,
    );
}

/// The last pixel of a column lies within the image.
pub proof fn lemma_column_end(column: int, height: int, width: int)
    requires
        0 <= column < width,
        0 <= height,
    ensures
        0 <= column * height,
        column * height + height <= height * width,
        height * width == width * height,
{
    assert(column * height + height <= height * width && 0 <= column * height && height * width
        == width * height) by (nonlinear_arith)
        requires
            0 <= column < width,
            0 <= height,
    ;
}

/// The row and the column of the pixel at place `k` in column-major order.
pub proof fn lemma_cell_place(k: int, height: int, width: int)
    requires
        0 <= k < height * width,
        0 <= height,
        0 <= width,
    ensures
        0 <= k % height < height,
        0 <= k / height < width,
        (k / height) * height + k % height == k,
{
    assert(height > 0 && width > 0) by (nonlinear_arith)
        requires
            0 <= k < height * width,
            0 <= height,
            0 <= width,
    ;
    vstd::arithmetic::div_mod::lemma_fundamental_div_mod(k, height);
    vstd::arithmetic::div_mod::lemma_div_pos_is_pos(k, height);
    assert(k / height < width) by (nonlinear_arith)
        requires
            k == height * (k / height) + k % height,
            0 <= k % height,
            k < height * width,
            height > 0,
    ;
    assert((k / height) * height == height * (k / height)) by (nonlinear_arith);
}

} // verus!
