//! One band of cells, held in an `ndarray` two-dimensional array.
use vstd::prelude::*;

verus! {

/// A `rows x cols` band of cells, held in an ndarray array.
#[verifier::external_body]
pub(crate) struct Band {
    cells: ndarray::Array2<i64>,
}

/// The cells of a band, row by row.
pub uninterp spec fn band_cells(b: Band) -> Seq<i64>;

/// The number of rows of a band.
pub uninterp spec fn band_rows(b: Band) -> nat;

/// The number of columns of a band.
pub uninterp spec fn band_cols(b: Band) -> nat;

impl Band {
    /// Relies on ndarray's `Array::from_elem`: an array of the given shape whose every
    /// element is `value`. It panics when the product of the non-zero sides exceeds
    /// `isize::MAX`, and the buffer it allocates panics past `isize::MAX` bytes
    /// (eight per cell); `requires` leaves both out.
    #[verifier::external_body]
    pub(crate) fn filled(nrows: usize, ncols: usize, value: i64) -> (b: Band)
        requires
            nrows <= isize::MAX,
            ncols <= isize::MAX,
            nrows * ncols * 8 <= isize::MAX,
        ensures
            band_rows(b) == nrows,
            band_cols(b) == ncols,
            band_cells(b) == Seq::new((nrows * ncols) as nat, |i: int| value),
    {
        Band { cells: ndarray::Array2::from_elem((nrows, ncols), value) }
    }

    /// Relies on ndarray's indexing by `[row, col]`: the element at that position, which
    /// panics only out of bounds.
    #[verifier::external_body]
    pub(crate) fn get(&self, y: usize, x: usize) -> (v: i64)
        requires
            y < band_rows(*self),
            x < band_cols(*self),
        ensures
            v == band_cells(*self)[y * band_cols(*self) + x],
    {
        self.cells[[y, x]]
    }

    /// Relies on ndarray's mutable indexing by `[row, col]`: only that element changes.
    #[verifier::external_body]
    pub(crate) fn set(&mut self, y: usize, x: usize, v: i64)
        requires
            y < band_rows(*old(self)),
            x < band_cols(*old(self)),
        ensures
            band_rows(*final(self)) == band_rows(*old(self)),
            band_cols(*final(self)) == band_cols(*old(self)),
            band_cells(*final(self)) == band_cells(*old(self)).update(y * band_cols(*old(self)) + x, v),
    {
        self.cells[[y, x]] = v;
    }

    /// Relies on ndarray's `iter`, which visits the elements in row-major order.
    #[verifier::external_body]
    pub(crate) fn into_vec(self) -> (r: Vec<i64>)
        ensures
            r@ == band_cells(self),
    {
        self.cells.iter().copied().collect()
    }
}

} // verus!
