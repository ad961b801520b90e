//! Dense two-dimensional arrays of doubles, stored by `ndarray`.

use crate::double::Real;
use vstd::prelude::*;

verus! {

/// A dense array of doubles with rows and columns.
#[verifier::external_body]
#[derive(Debug)]
pub struct Array2 {
    cells: ndarray::Array2<Real>,
}

/// The numbers that an array holds, by row and column.
pub uninterp spec fn cells_of(a: Array2) -> Map<(int, int), Real>;

/// The numbers of rows and of columns that an array was made with.
pub uninterp spec fn shape_of(a: Array2) -> (nat, nat);

/// What an array is: its shape and the number in each cell.
pub ghost struct Grid {
    pub rows: nat,
    pub cols: nat,
    pub cells: Map<(int, int), Real>,
}

impl Grid {
    /// The grid whose cell `(i, j)` holds `f(i, j)`.
    pub open spec fn generated(rows: nat, cols: nat, f: spec_fn(int, int) -> Real) -> Grid {
        Grid {
            rows,
            cols,
            cells: Map::new(
                |p: (int, int)| 0 <= p.0 < rows && 0 <= p.1 < cols,
                |p: (int, int)| f(p.0, p.1),
            ),
        }
    }

    /// The number in row `i` and column `j`.
    pub open spec fn at(self, i: int, j: int) -> Real {
        self.cells[(i, j)]
    }

    /// Whether there is a number in exactly the cells that the shape admits.
    pub open spec fn full(self) -> bool {
        self.cells.dom() == Grid::generated(
            self.rows,
            self.cols,
            |i: int, j: int| Real { bits: 0 },
        ).cells.dom()
    }

    /// The grid with `v` in row `i` and column `j`.
    pub open spec fn with(self, i: int, j: int, v: Real) -> Grid {
        Grid { cells: self.cells.insert((i, j), v), ..self }
    }
}

impl View for Array2 {
    type V = Grid;

    open spec fn view(&self) -> Grid {
        Grid { rows: shape_of(*self).0, cols: shape_of(*self).1, cells: cells_of(*self) }
    }
}

/// `n`, or one where `n` is zero.
pub open spec fn at_least_one(n: nat) -> nat {
    if n == 0 {
        1
    } else {
        n
    }
}

/// Whether the bytes of an array of this shape can be addressed.
pub open spec fn fits(rows: nat, cols: nat) -> bool {
    at_least_one(rows) * at_least_one(cols) * 8 <= isize::MAX
}

impl Array2 {
    /// `ndarray::Array2::from_elem`: an array of the given shape with `v` in every cell.
    #[verifier::external_body]
    pub(crate) fn from_elem(rows: usize, cols: usize, v: Real) -> (r: Array2)
        requires
            fits(rows as nat, cols as nat),
        ensures
            shape_of(r) == (rows as nat, cols as nat),
            cells_of(r) == Grid::generated(rows as nat, cols as nat, |i: int, j: int| v).cells,
    {
        Array2 { cells: ndarray::Array2::from_elem((rows, cols), v) }
    }

    /// `ndarray::Array2::from_shape_vec`: an array of the given shape that takes its
    /// cells row by row from `v`, or nothing where the length of `v` is not that of the
    /// shape.
    #[verifier::external_body]
    pub(crate) fn from_shape_vec(rows: usize, cols: usize, v: Vec<Real>) -> (r: Option<Array2>)
        requires
            fits(rows as nat, cols as nat),
        ensures
            r is Some <==> v@.len() == rows * cols,
            r is Some ==> shape_of(r->0) == (rows as nat, cols as nat),
            r is Some ==> cells_of(r->0) == Grid::generated(
                rows as nat,
                cols as nat,
                |i: int, j: int| v@[i * cols + j],
            ).cells,
    {
        match ndarray::Array2::from_shape_vec((rows, cols), v) {
            Ok(cells) => Some(Array2 { cells }),
            Err(_) => None,
        }
    }

    /// `ndarray::ArrayBase::dim`: the numbers of rows and of columns.  An array holds a
    /// number in exactly the cells of its shape, and there are no more of them than
    /// `isize::MAX`.
    #[verifier::external_body]
    pub(crate) fn shape(&self) -> (r: (usize, usize))
        ensures
            r.0 == shape_of(*self).0,
            r.1 == shape_of(*self).1,
            r.0 * r.1 <= isize::MAX,
            cells_of(*self).dom() == Grid::generated(
                r.0 as nat,
                r.1 as nat,
                |i: int, j: int| Real { bits: 0 },
            ).cells.dom(),
    {
        self.cells.dim()
    }

    /// Indexing of an `ndarray` array: the number in row `i` and column `j`.
    #[verifier::external_body]
    pub(crate) fn cell(&self, i: usize, j: usize) -> (r: Real)
        requires
            i < self@.rows,
            j < self@.cols,
        ensures
            r == cells_of(*self)[(i as int, j as int)],
    {
        self.cells[[i, j]]
    }

    /// Mutable indexing of an `ndarray` array: puts `v` into row `i` and column `j`.
    #[verifier::external_body]
    pub(crate) fn put(&mut self, i: usize, j: usize, v: Real)
        requires
            i < old(self)@.rows,
            j < old(self)@.cols,
        ensures
            shape_of(*final(self)) == shape_of(*old(self)),
            cells_of(*final(self)) == cells_of(*old(self)).insert((i as int, j as int), v),
    {
        self.cells[[i, j]] = v;
    }

    /// `ndarray::ArrayBase::clone`: an array with the same shape and the same cells.
    #[verifier::external_body]
    pub(crate) fn copy(&self) -> (r: Array2)
        ensures
            shape_of(r) == shape_of(*self),
            cells_of(r) == cells_of(*self),
    {
        Array2 { cells: self.cells.clone() }
    }

    /// The numbers of rows and of columns.
    pub fn dim(&self) -> (r: (usize, usize))
        ensures
            r.0 == self@.rows,
            r.1 == self@.cols,
            r.0 * r.1 <= isize::MAX,
            self@.full(),
    {
        self.shape()
    }

    pub fn nrows(&self) -> (r: usize)
        ensures
            r == self@.rows,
    {
        self.shape().0
    }

    pub fn ncols(&self) -> (r: usize)
        ensures
            r == self@.cols,
    {
        self.shape().1
    }

    /// The number in row `i` and column `j`, if there is such a cell.
    pub fn get(&self, i: usize, j: usize) -> (r: Option<Real>)
        ensures
            r == if i < self@.rows && j < self@.cols {
                Some(self@.at(i as int, j as int))
            } else {
                None
            },
    {
        let (rows, cols) = self.shape();
        if i < rows && j < cols {
            Some(self.cell(i, j))
        } else {
            None
        }
    }

    /// Whether the bytes of an array of this shape can be addressed.
    pub fn fits(rows: usize, cols: usize) -> (r: bool)
        ensures
            r == fits(rows as nat, cols as nat),
    {
        let wide: u128 = if rows == 0 { 1 } else { rows as u128 };
        let tall: u128 = if cols == 0 { 1 } else { cols as u128 };
        assert(0 < wide * tall <= 0xFFFF_FFFF_FFFF_FFFF * 0xFFFF_FFFF_FFFF_FFFF) by (nonlinear_arith)
            requires
                0 < wide <= 0xFFFF_FFFF_FFFF_FFFF,
                0 < tall <= 0xFFFF_FFFF_FFFF_FFFF,
        ;
        wide * tall <= (isize::MAX as u128) / 8
    }

    /// An array of the given shape with `v` in every cell, if it can be addressed.
    pub fn filled(rows: usize, cols: usize, v: Real) -> (r: Option<Array2>)
        ensures
            r is Some <==> fits(rows as nat, cols as nat),
            r is Some ==> r->0@ == Grid::generated(rows as nat, cols as nat, |i: int, j: int| v),
    {
        if Array2::fits(rows, cols) {
            Some(Array2::from_elem(rows, cols, v))
        } else {
            None
        }
    }

    /// The array of the given shape that takes its cells row by row from `v`, if the
    /// length of `v` is that of the shape and the array can be addressed.
    pub fn from_rows(rows: usize, cols: usize, v: Vec<Real>) -> (r: Option<Array2>)
        ensures
            r is Some <==> fits(rows as nat, cols as nat) && v@.len() == rows * cols,
            r is Some ==> r->0@ == Grid::generated(
                rows as nat,
                cols as nat,
                |i: int, j: int| v@[i * cols + j],
            ),
    {
        if Array2::fits(rows, cols) {
            Array2::from_shape_vec(rows, cols, v)
        } else {
            None
        }
    }
}

impl Grid {
    /// The numbers row by row.
    pub open spec fn flat(self) -> Seq<Real> {
        Seq::new(
            self.rows * self.cols,
            |k: int| self.at(k / (self.cols as int), k % (self.cols as int)),
        )
    }
}

impl Array2 {
    /// The number of cells.
    pub fn len(&self) -> (r: usize)
        ensures
            r == self@.rows * self@.cols,
    {
        let (rows, cols) = self.shape();
        rows * cols
    }

    /// The numbers row by row.
    pub fn to_flat(&self) -> (r: Vec<Real>)
        ensures
            r@ == self@.flat(),
            r@.len() == self@.rows * self@.cols,
    {
        let (rows, cols) = self.shape();
        let mut r: Vec<Real> = Vec::new();
        assert(0 * (cols as int) == 0) by (nonlinear_arith);
        for i in 0..rows
            invariant
                rows == self@.rows,
                cols == self@.cols,
                r@.len() == i * cols,
                forall|k: int| 0 <= k < r@.len() ==> #[trigger] r@[k] == self@.flat()[k],
        {
            for j in 0..cols
                invariant
                    i < rows,
                    rows == self@.rows,
                    cols == self@.cols,
                    r@.len() == i * cols + j,
                    forall|k: int| 0 <= k < r@.len() ==> #[trigger] r@[k] == self@.flat()[k],
            {
                proof {
                    vstd::arithmetic::div_mod::lemma_fundamental_div_mod_converse(
                        i * cols + j,
                        cols as int,
                        i as int,
                        j as int,
                    );
                    assert(0 <= i * cols + j < rows * cols) by (nonlinear_arith)
                        requires
                            0 <= i < rows,
                            0 <= j < cols,
                    ;
                }
                r.push(self.cell(i, j));
            }
            assert(i * cols + cols == (i + 1) * cols) by (nonlinear_arith);
        }
        assert(r@ =~= self@.flat());
        r
    }
}

impl Clone for Array2 {
    fn clone(&self) -> (r: Array2)
        ensures
            r@ == self@,
    {
        self.copy()
    }
}

/// A narrower array can be addressed too.
pub(crate) proof fn lemma_narrower_fits(rows: nat, cols: nat, fewer: nat)
    requires
        fits(rows, cols),
        fewer <= cols,
    ensures
        fits(rows, fewer),
{
    let (r, c, f) = (at_least_one(rows) as int, at_least_one(cols) as int, at_least_one(fewer) as int);
    assert(r * f * 8 <= r * c * 8) by (nonlinear_arith)
        requires
            0 < r,
            0 < f <= c,
    ;
}

/// A shorter array can be addressed too.
pub(crate) proof fn lemma_shorter_fits(rows: nat, cols: nat, fewer: nat)
    requires
        fits(rows, cols),
        fewer <= rows,
    ensures
        fits(fewer, cols),
{
    let (r, c, f) = (at_least_one(rows) as int, at_least_one(cols) as int, at_least_one(fewer) as int);
    assert(f * c * 8 <= r * c * 8) by (nonlinear_arith)
        requires
            0 < c,
            0 < f <= r,
    ;
}

} // verus!
