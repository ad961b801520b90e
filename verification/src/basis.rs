//! Bases of subspaces, as lists of columns.

use crate::arithmetic::{
    difference_of, functional, minus, over, plus, product_of, quotient_of, root_of, sqrt, sum_of,
    times, Arithmetic,
};
use crate::array::{fits, Array2, Grid};
use crate::double::{Real, ONE, ZERO};
use crate::error::{Complaint, TheseusError};
use crate::qr::HUNDRED;
use crate::sparse::{Csc, SparseColMatOwned};
use crate::vector::{
    axpy, dot, dot_upto, moved, norm, norm_of, scale, scaled, squares, sum_of_squares,
};
use crate::weight::{column, take_column};
use vstd::prelude::*;

verus! {

/// The smallest tolerance of an analysis, `1e-10`.
pub const DEFAULT_TOL: u64 = 0x3DDB_7CDF_D9D7_BDBB;

/// The entries of each column.
pub open spec fn columns_of(v: Seq<Vec<Real>>) -> Seq<Seq<Real>> {
    Seq::new(v.len(), |j: int| v[j]@)
}

/// Whether every column has `rows` entries.
pub open spec fn tall(v: Seq<Vec<Real>>, rows: nat) -> bool {
    forall|j: int| 0 <= j < v.len() ==> (#[trigger] v[j])@.len() == rows
}

/// `v` less its components along the first `k` columns, taken off one after the other.
pub open spec fn deflated<A: Arithmetic>(ar: A, v: Seq<Real>, cols: Seq<Seq<Real>>, k: int) -> Seq<
    Real,
>
    decreases k,
{
    if k <= 0 {
        v
    } else {
        let w = deflated(ar, v, cols, k - 1);
        moved(ar, w, dot_upto(ar, w, cols[k - 1], w.len() as int).negated(), cols[k - 1])
    }
}

/// `v` less its components along all columns, taken off twice.
pub open spec fn twice_deflated<A: Arithmetic>(ar: A, v: Seq<Real>, cols: Seq<Seq<Real>>) -> Seq<
    Real,
> {
    let once = deflated(ar, v, cols, cols.len() as int);
    deflated(ar, once, cols, cols.len() as int)
}

/// The orthonormal columns that the first `j` columns of the input give; what is shorter
/// than the tolerance is left out.
pub open spec fn orthonormal<A: Arithmetic>(
    ar: A,
    input: Seq<Seq<Real>>,
    tolerance: Real,
    j: int,
) -> Seq<Seq<Real>>
    decreases j,
{
    if j <= 0 {
        Seq::empty()
    } else {
        let before = orthonormal(ar, input, tolerance, j - 1);
        let v = twice_deflated(ar, input[j - 1], before);
        let n = norm_of(ar, v);
        if tolerance.below(n) {
            before.push(scaled(ar, v, quotient_of(ar, Real { bits: ONE }, n)))
        } else {
            before
        }
    }
}

/// `v` less its components along the first `k` columns.
fn deflate<A: Arithmetic>(ar: &A, v: &Vec<Real>, cols: &Vec<Vec<Real>>) -> (r: Vec<Real>)
    requires
        tall(cols@, v@.len()),
    ensures
        r@.len() == v@.len(),
        functional(*ar) ==> r@ == deflated(*ar, v@, columns_of(cols@), cols@.len() as int),
{
    let mut r = v.clone();
    for k in 0..cols.len()
        invariant
            tall(cols@, v@.len()),
            r@.len() == v@.len(),
            functional(*ar) ==> r@ == deflated(*ar, v@, columns_of(cols@), k as int),
    {
        let col = &cols[k];
        assert(col@.len() == v@.len());
        let along = dot(ar, &r, col);
        r = axpy(ar, &r, along.neg(), col);
    }
    r
}

/// Orthonormal columns that span what the input spans, up to the tolerance.
pub fn orthonormalize<A: Arithmetic>(ar: &A, input: &Vec<Vec<Real>>, rows: usize, tolerance: Real)
    -> (r: Vec<Vec<Real>>)
    requires
        tall(input@, rows as nat),
    ensures
        tall(r@, rows as nat),
        r@.len() <= input@.len(),
        functional(*ar) ==> columns_of(r@) == orthonormal(
            *ar,
            columns_of(input@),
            tolerance,
            input@.len() as int,
        ),
{
    let mut r: Vec<Vec<Real>> = Vec::new();
    assert(columns_of(r@) =~= Seq::<Seq<Real>>::empty());
    for j in 0..input.len()
        invariant
            tall(input@, rows as nat),
            tall(r@, rows as nat),
            r@.len() <= j,
            functional(*ar) ==> columns_of(r@) == orthonormal(
                *ar,
                columns_of(input@),
                tolerance,
                j as int,
            ),
    {
        let first = &input[j];
        assert(first@.len() == rows);
        let once = deflate(ar, first, &r);
        let v = deflate(ar, &once, &r);
        let size = norm(ar, &v);
        if size.gt(tolerance) {
            let inverse = over(ar, Real { bits: ONE }, size);
            let unit = scale(ar, &v, inverse);
            let ghost before = r@;
            r.push(unit);
            assert(columns_of(r@) =~= columns_of(before).push(unit@));
        }
    }
    r
}

/// `v` less its components along the first `k` columns of another basis.
pub open spec fn stripped<A: Arithmetic>(ar: A, v: Seq<Real>, removed: Seq<Seq<Real>>, k: int) -> Seq<
    Real,
>
    decreases k,
{
    if k <= 0 {
        v
    } else {
        let w = stripped(ar, v, removed, k - 1);
        let along = dot_upto(ar, removed[k - 1], w, w.len() as int);
        Seq::new(
            w.len(),
            |i: int| difference_of(ar, w[i], product_of(ar, along, removed[k - 1][i])),
        )
    }
}

/// Every column of a basis less its components along another basis.
pub open spec fn stripped_columns<A: Arithmetic>(
    ar: A,
    basis: Seq<Seq<Real>>,
    removed: Seq<Seq<Real>>,
) -> Seq<Seq<Real>> {
    Seq::new(basis.len(), |j: int| stripped(ar, basis[j], removed, removed.len() as int))
}

/// The first `n` columns, as far as there are so many.
pub open spec fn first_columns(cols: Seq<Seq<Real>>, n: nat) -> Seq<Seq<Real>> {
    if n <= cols.len() {
        cols.subrange(0, n as int)
    } else {
        cols
    }
}

/// The first `count` columns.
pub fn take_columns(cols: &Vec<Vec<Real>>, rows: usize, count: usize) -> (r: Vec<Vec<Real>>)
    requires
        tall(cols@, rows as nat),
    ensures
        tall(r@, rows as nat),
        columns_of(r@) == first_columns(columns_of(cols@), count as nat),
        r@.len() == if count <= cols@.len() {
            count as nat
        } else {
            cols@.len()
        },
{
    let n: usize = if count <= cols.len() {
        count
    } else {
        cols.len()
    };
    let mut r: Vec<Vec<Real>> = Vec::new();
    for j in 0..n
        invariant
            tall(cols@, rows as nat),
            tall(r@, rows as nat),
            n <= cols@.len(),
            r@.len() == j,
            forall|k: int| 0 <= k < j ==> (#[trigger] r@[k])@ == cols@[k]@,
    {
        assert(cols@[j as int]@.len() == rows);
        r.push(cols[j].clone());
    }
    assert(columns_of(r@) =~= first_columns(columns_of(cols@), count as nat));
    r
}

/// Orthonormal columns, at most `max_modes`, of what is left of a basis when another one is
/// taken off.
pub fn remove_subspace<A: Arithmetic>(
    ar: &A,
    basis: &Vec<Vec<Real>>,
    removed: &Vec<Vec<Real>>,
    rows: usize,
    max_modes: usize,
    tolerance: Real,
) -> (r: Vec<Vec<Real>>)
    requires
        tall(basis@, rows as nat),
        tall(removed@, rows as nat),
    ensures
        tall(r@, rows as nat),
        r@.len() <= basis@.len(),
        r@.len() <= max_modes,
        functional(*ar) ==> columns_of(r@) == first_columns(
            orthonormal(
                *ar,
                stripped_columns(*ar, columns_of(basis@), columns_of(removed@)),
                tolerance,
                basis@.len() as int,
            ),
            max_modes as nat,
        ),
{
    let mut residual: Vec<Vec<Real>> = Vec::new();
    for j in 0..basis.len()
        invariant
            tall(basis@, rows as nat),
            tall(removed@, rows as nat),
            tall(residual@, rows as nat),
            residual@.len() == j,
            functional(*ar) ==> forall|k: int|
                0 <= k < j ==> (#[trigger] residual@[k])@ == stripped(
                    *ar,
                    basis@[k]@,
                    columns_of(removed@),
                    removed@.len() as int,
                ),
    {
        assert(basis@[j as int]@.len() == rows);
        let mut v = basis[j].clone();
        for k in 0..removed.len()
            invariant
                tall(removed@, rows as nat),
                j < basis@.len(),
                v@.len() == rows,
                functional(*ar) ==> v@ == stripped(
                    *ar,
                    basis@[j as int]@,
                    columns_of(removed@),
                    k as int,
                ),
        {
            let along_col = &removed[k];
            assert(along_col@.len() == rows);
            let along = dot(ar, along_col, &v);
            let mut next: Vec<Real> = Vec::new();
            for i in 0..rows
                invariant
                    v@.len() == rows,
                    along_col@.len() == rows,
                    next@.len() == i,
                    functional(*ar) ==> forall|x: int|
                        0 <= x < i ==> #[trigger] next@[x] == difference_of(
                            *ar,
                            v@[x],
                            product_of(*ar, along, along_col@[x]),
                        ),
            {
                let part = times(ar, along, along_col[i]);
                next.push(minus(ar, v[i], part));
            }
            proof {
                if functional(*ar) {
                    assert(next@ =~= stripped(
                        *ar,
                        basis@[j as int]@,
                        columns_of(removed@),
                        k as int + 1,
                    ));
                }
            }
            v = next;
        }
        residual.push(v);
    }
    proof {
        if functional(*ar) {
            assert(columns_of(residual@) =~= stripped_columns(
                *ar,
                columns_of(basis@),
                columns_of(removed@),
            ));
        }
    }
    let units = orthonormalize(ar, &residual, rows, tolerance);
    take_columns(&units, rows, max_modes)
}

/// The columns from `start` up to `end` of an array, but at most `cap`.
pub open spec fn range_count(start: nat, end: nat, cap: nat) -> nat {
    let all = if start <= end {
        (end - start) as nat
    } else {
        0
    };
    if all <= cap {
        all
    } else {
        cap
    }
}

/// The columns from `start` up to `end` of an array, but at most `cap`.
pub fn columns_range(matrix: &Array2, start: usize, end: usize, cap: usize) -> (r: Vec<Vec<Real>>)
    requires
        end <= matrix@.cols,
    ensures
        tall(r@, matrix@.rows),
        columns_of(r@) == Seq::new(
            range_count(start as nat, end as nat, cap as nat),
            |j: int| column(matrix@, start + j),
        ),
        r@.len() == range_count(start as nat, end as nat, cap as nat),
{
    let all: usize = end.saturating_sub(start);
    let count: usize = if all <= cap {
        all
    } else {
        cap
    };
    let mut r: Vec<Vec<Real>> = Vec::new();
    for j in 0..count
        invariant
            end <= matrix@.cols,
            count <= end - start || count == 0,
            tall(r@, matrix@.rows),
            r@.len() == j,
            forall|k: int| 0 <= k < j ==> (#[trigger] r@[k])@ == column(matrix@, start + k),
    {
        r.push(take_column(matrix, start + j));
    }
    assert(columns_of(r@) =~= Seq::new(
        range_count(start as nat, end as nat, cap as nat),
        |j: int| column(matrix@, start + j),
    ));
    r
}

/// The array with the given columns.
pub open spec fn grid_of(rows: nat, cols: Seq<Seq<Real>>) -> Grid {
    Grid::generated(rows, cols.len(), |i: int, j: int| cols[j][i])
}

/// The array with the given columns.
pub fn from_columns(rows: usize, cols: &Vec<Vec<Real>>) -> (r: Array2)
    requires
        tall(cols@, rows as nat),
        fits(rows as nat, cols@.len()),
    ensures
        r@ == grid_of(rows as nat, columns_of(cols@)),
{
    let n: usize = cols.len();
    let ghost goal = grid_of(rows as nat, columns_of(cols@));
    let mut r = Array2::from_elem(rows, n, Real { bits: ZERO });
    for j in 0..n
        invariant
            n == cols@.len(),
            tall(cols@, rows as nat),
            goal == grid_of(rows as nat, columns_of(cols@)),
            r@.rows == rows,
            r@.cols == n,
            r@.cells.dom() == goal.cells.dom(),
            forall|x: int, y: int|
                0 <= x < rows && 0 <= y < j ==> #[trigger] r@.cells[(x, y)] == cols@[y]@[x],
    {
        let col = &cols[j];
        assert(col@.len() == rows);
        for i in 0..rows
            invariant
                j < n,
                n == cols@.len(),
                col@ == cols@[j as int]@,
                col@.len() == rows,
                goal == grid_of(rows as nat, columns_of(cols@)),
                r@.rows == rows,
                r@.cols == n,
                r@.cells.dom() == goal.cells.dom(),
                forall|x: int, y: int|
                    0 <= x < rows && 0 <= y < j ==> #[trigger] r@.cells[(x, y)] == cols@[y]@[x],
                forall|x: int|
                    0 <= x < i ==> #[trigger] r@.cells[(x, j as int)] == cols@[j as int]@[x],
        {
            r.put(i, j, col[i]);
            assert(r@.cells.dom() =~= goal.cells.dom());
        }
    }
    proof {
        assert forall|x: (int, int)| #[trigger] r@.cells.dom().contains(x) implies r@.cells[x]
            == goal.cells[x] by {
            assert(x == (x.0, x.1));
        }
        assert(r@.cells =~= goal.cells);
    }
    r
}

/// The sum of the squared images of the first `j` columns.
pub open spec fn image_squares<A: Arithmetic>(ar: A, operator: Csc, cols: Seq<Seq<Real>>, j: int) -> Real
    decreases j,
{
    if j <= 0 {
        Real { bits: ZERO }
    } else {
        let image = operator.applied(ar, cols[j - 1]);
        sum_of(
            ar,
            image_squares(ar, operator, cols, j - 1),
            squares(ar, image, image.len() as int),
        )
    }
}

/// The size of the images of a basis, which is zero for a null space.
pub open spec fn kernel_residual<A: Arithmetic>(
    ar: A,
    a: Csc,
    cols: Seq<Seq<Real>>,
    transpose: bool,
) -> Real {
    root_of(
        ar,
        image_squares(
            ar,
            if transpose {
                a.transposed()
            } else {
                a
            },
            cols,
            cols.len() as int,
        ),
    )
}

/// The size that the images of a null-space basis may have.
pub open spec fn kernel_allowance<A: Arithmetic>(ar: A, a: Csc, tolerance: Real) -> Real {
    product_of(
        ar,
        product_of(ar, Real { bits: HUNDRED }, tolerance.larger(Real { bits: DEFAULT_TOL })),
        norm_of(ar, a.values).larger(Real { bits: ONE }),
    )
}

/// Checks that a matrix, or its transpose, maps every column to nearly nothing.
pub fn verify_kernel<A: Arithmetic>(
    ar: &A,
    a: &SparseColMatOwned,
    basis: &Vec<Vec<Real>>,
    transpose: bool,
    tolerance: Real,
) -> (r: Result<(), TheseusError>)
    requires
        a.wf(),
        a.nrows < usize::MAX,
        tall(
            basis@,
            if transpose {
                a.nrows as nat
            } else {
                a.ncols as nat
            },
        ),
    ensures
        match r {
            Ok(_) => functional(*ar) ==> !kernel_allowance(*ar, a@, tolerance).below(
                kernel_residual(*ar, a@, columns_of(basis@), transpose),
            ),
            Err(e) => exists|size: Real, allowed: Real|
                {
                    &&& e == TheseusError::Solver(Complaint::KernelResidual(size))
                    &&& #[trigger] allowed.below(size)
                    &&& functional(*ar) ==> allowed == kernel_allowance(*ar, a@, tolerance)
                    &&& functional(*ar) ==> size == kernel_residual(
                        *ar,
                        a@,
                        columns_of(basis@),
                        transpose,
                    )
                },
        },
{
    let operator = if transpose {
        a.transpose()
    } else {
        a.clone()
    };
    let mut total = Real { bits: ZERO };
    for j in 0..basis.len()
        invariant
            operator.wf(),
            tall(basis@, operator.ncols as nat),
            functional(*ar) ==> total == image_squares(
                *ar,
                operator@,
                columns_of(basis@),
                j as int,
            ),
    {
        let col = &basis[j];
        assert(col@.len() == operator.ncols);
        let image = operator.matvec(ar, col);
        let size = sum_of_squares(ar, &image, image.len());
        total = plus(ar, total, size);
    }
    let size = sqrt(ar, total);
    let base = norm(ar, &a.values).max(Real { bits: ONE });
    let part = times(ar, Real { bits: HUNDRED }, tolerance.max(Real { bits: DEFAULT_TOL }));
    let allowed = times(ar, part, base);
    if size.gt(allowed) {
        assert(allowed.below(size));
        return Err(TheseusError::Solver(Complaint::KernelResidual(size)));
    }
    Ok(())
}

} // verus!
