//! What errors, distances and allowances tell of a solution.

use crate::arithmetic::{
    count_of, difference_of, functional, product_of, quotient_of, root_of, sum_of, Arithmetic,
};
use crate::array::{Array2, Grid};
use crate::backend::Backend;
use crate::basis::{image_squares, kernel_residual};
use crate::bounds::{force_box_outcome, shifted, BoxBounds};
use crate::conic::{box_violation, equality_error, equality_residual};
use crate::double::{Real, ONE, ZERO};
use crate::eigen::{ascends, diagonal_numbers, magnitude_upto, permutes, reads_off};
use crate::entries::{
    column_times, columns_are_multiplied_and_added, entry, lemma_applied_length, row_times,
    rows_are_multiplied_and_added,
};
use crate::equilibrium::{length_of, EquilibriumSystem};
use crate::error::{Listed, TheseusError};
use crate::exact::{
    lemma_combine, lemma_combine3, lemma_combine4, lemma_constants, lemma_difference, lemma_negated,
    lemma_nil_sum, lemma_nil_times, lemma_nil_zero, lemma_product, lemma_quotient, lemma_same_sym,
    lemma_same_trans, lemma_sum, lemma_sum_product, lemma_total_equal, lemma_total_same, total_of,
    Exact,
};
use crate::handle::rotated_upto;
use crate::irls::largest_square;
use crate::measures::kernel_residuals_add_up_images;
use crate::nullspace::{dense_upto, identity_allowance, identity_distance, residual_of};
use crate::objectives::{row_length, rows_outcome};
use crate::optimality::normal_residual;
use crate::retraction::{corrected, jacobian_transpose_of, LengthRetractionOptions, RowSpaceSolver};
use crate::reweighting::exact_root;
use crate::saddle::saddle_matrix;
use crate::solving::{saddle_solves_are_optimal, solves_exactly};
use crate::sparse::{lemma_transposed_wf, Csc};
use crate::turning::lemma_swap_factors;
use crate::vector::{less, moved, negatives, norm_of};
use crate::weight::{backward_error, inverse_applied, MetricWeight};
use crate::weighted_lsqr::{damping_rows, image_back, image_under};
use vstd::prelude::*;

verus! {

/// Whether `x` is the root of a number that counts as `square`.
pub open spec fn is_root_of<A: Arithmetic>(e: Exact, ar: A, x: Real, square: int) -> bool {
    exists|v: Real| x == #[trigger] root_of(ar, v) && e.same(e.of(v), square)
}

/// A length is the root of the sum of the squares of its coordinate differences; so it is for
/// the length of a row of three.
pub proof fn lengths_are_euclidean<A: Arithmetic>(
    e: Exact,
    ar: A,
    x: Real,
    y: Real,
    z: Real,
    g: Grid,
    row: int,
)
    requires
        e.computes(ar),
    ensures
        is_root_of(
            e,
            ar,
            length_of(ar, x, y, z),
            e.of(x) * e.of(x) + e.of(y) * e.of(y) + e.of(z) * e.of(z),
        ),
        is_root_of(
            e,
            ar,
            row_length(ar, g, row),
            e.of(g.at(row, 0)) * e.of(g.at(row, 0)) + e.of(g.at(row, 1)) * e.of(g.at(row, 1))
                + e.of(g.at(row, 2)) * e.of(g.at(row, 2)),
        ),
{
    let zero = Real { bits: ZERO };
    lemma_constants(e, ar);
    let a = sum_of(ar, zero, product_of(ar, x, x));
    let b = sum_of(ar, a, product_of(ar, y, y));
    let c = sum_of(ar, b, product_of(ar, z, z));
    lemma_sum_product(e, ar, zero, x, x);
    lemma_sum_product(e, ar, a, y, y);
    lemma_sum_product(e, ar, b, z, z);
    let (xx, yy, zz) = (e.of(x) * e.of(x), e.of(y) * e.of(y), e.of(z) * e.of(z));
    lemma_combine4(
        e,
        e.of(c) - (xx + yy + zz),
        1,
        e.of(c) - (e.of(b) + zz),
        1,
        e.of(b) - (e.of(a) + yy),
        1,
        e.of(a) - (e.of(zero) + xx),
        1,
        e.of(zero) - 0,
    );
    let (u, v, w) = (g.at(row, 0), g.at(row, 1), g.at(row, 2));
    let p = product_of(ar, u, u);
    let s = sum_of(ar, p, product_of(ar, v, v));
    let t = sum_of(ar, s, product_of(ar, w, w));
    lemma_product(e, ar, u, u);
    lemma_sum_product(e, ar, p, v, v);
    lemma_sum_product(e, ar, s, w, w);
    let (uu, vv, ww) = (e.of(u) * e.of(u), e.of(v) * e.of(v), e.of(w) * e.of(w));
    lemma_combine3(
        e,
        e.of(t) - (uu + vv + ww),
        1,
        e.of(t) - (e.of(s) + ww),
        1,
        e.of(s) - (e.of(p) + vv),
        1,
        e.of(p) - uu,
    );
}

/// No unknown lies farther outside its box than the violation tells, and where none lies
/// outside, there is no violation.
pub proof fn violations_bound_all_excesses<A: Arithmetic>(
    ar: A,
    bounds: BoxBounds,
    q: Seq<Real>,
    k: int,
)
    requires
        0 <= k,
    ensures
        (Real { bits: ZERO }).at_most(box_violation(ar, bounds, q, k)),
        forall|i: int|
            #![trigger q[i]]
            0 <= i < k && !difference_of(ar, bounds.lower@[i], q[i]).nan() ==> difference_of(
                ar,
                bounds.lower@[i],
                q[i],
            ).at_most(box_violation(ar, bounds, q, k)),
        forall|i: int|
            #![trigger q[i]]
            0 <= i < k && !difference_of(ar, q[i], bounds.upper@[i]).nan() ==> difference_of(
                ar,
                q[i],
                bounds.upper@[i],
            ).at_most(box_violation(ar, bounds, q, k)),
        (forall|i: int|
            #![trigger q[i]]
            0 <= i < k ==> !(Real { bits: ZERO }).below(
                difference_of(ar, bounds.lower@[i], q[i]),
            ) && !(Real { bits: ZERO }).below(difference_of(ar, q[i], bounds.upper@[i])))
            ==> box_violation(ar, bounds, q, k).level(Real { bits: ZERO }),
    decreases k,
{
    if k > 0 {
        violations_bound_all_excesses(ar, bounds, q, k - 1);
        assert(q[k - 1] == q[k - 1]);
    }
}

/// The residual of the equalities is, in every row, the slack, or the weight times the
/// slack, and the load less the row times the unknowns.
pub proof fn equality_residuals_miss_the_loads<A: Arithmetic, B: Backend>(
    e: Exact,
    ar: A,
    m: Csc,
    p: Seq<Real>,
    weight: Option<&MetricWeight<B>>,
    slack: Seq<Real>,
    q: Seq<Real>,
    i: int,
)
    requires
        e.computes(ar),
        m.wf(),
        0 <= i < m.nrows,
        weight matches Some(w) ==> w.s@.wf() && w.s@.nrows == m.nrows,
    ensures
        e.same(
            e.of(equality_residual(ar, m, p, weight, slack, q)[i]),
            (match weight {
                Some(w) => row_times(e, w.s@, i, slack),
                None => e.of(slack[i]),
            }) + e.of(p[i]) - row_times(e, m, i, q),
        ),
{
    let left = match weight {
        Some(w) => w.s@.applied(ar, slack),
        None => slack,
    };
    let own = match weight {
        Some(w) => row_times(e, w.s@, i, slack),
        None => e.of(slack[i]),
    };
    match weight {
        Some(w) => rows_are_multiplied_and_added(e, ar, w.s@, slack, i),
        None => lemma_nil_zero(e),
    }
    rows_are_multiplied_and_added(e, ar, m, q, i);
    let mq = m.applied(ar, q)[i];
    let d = difference_of(ar, p[i], mq);
    lemma_difference(e, ar, p[i], mq);
    lemma_sum(e, ar, left[i], d);
    let r = e.of(sum_of(ar, left[i], d));
    let row = row_times(e, m, i, q);
    lemma_combine4(
        e,
        r - (own + e.of(p[i]) - row),
        1,
        r - (e.of(left[i]) + e.of(d)),
        1,
        e.of(left[i]) - own,
        1,
        e.of(d) - (e.of(p[i]) - e.of(mq)),
        -1,
        e.of(mq) - row,
    );
}

/// The error of the equalities is relative to one and the size of the loads.
pub proof fn equality_errors_are_relative<A: Arithmetic, B: Backend>(
    e: Exact,
    ar: A,
    m: Csc,
    p: Seq<Real>,
    weight: Option<&MetricWeight<B>>,
    slack: Seq<Real>,
    q: Seq<Real>,
)
    requires
        e.computes(ar),
        e.unit(e.of(sum_of(ar, Real { bits: ONE }, norm_of(ar, p)))),
    ensures
        e.same(
            e.of(equality_error(ar, m, p, weight, slack, q)) * (1 + e.of(norm_of(ar, p))),
            e.of(norm_of(ar, equality_residual(ar, m, p, weight, slack, q))),
        ),
{
    let one = Real { bits: ONE };
    let n = norm_of(ar, p);
    let s = sum_of(ar, one, n);
    let r = norm_of(ar, equality_residual(ar, m, p, weight, slack, q));
    lemma_constants(e, ar);
    lemma_sum(e, ar, one, n);
    lemma_quotient(e, ar, r, s);
    let (x, y, z, o, t) = (e.of(quotient_of(ar, r, s)), e.of(s), e.of(n), e.of(one), e.of(r));
    assert(x * (1 + z) - t == 1 * (x * y - t) + (-x) * (y - (o + z)) + (-x) * (o - 1))
        by (nonlinear_arith);
    lemma_combine3(e, x * (1 + z) - t, 1, x * y - t, -x, y - (o + z), -x, o - 1);
}

/// A backward error is the size of what the solution leaves of the right-hand side, relative
/// to the sizes of matrix times solution and right-hand side.
pub proof fn backward_errors_are_relative<A: Arithmetic>(
    e: Exact,
    ar: A,
    d: Csc,
    y: Seq<Real>,
    b: Seq<Real>,
    i: int,
)
    requires
        e.computes(ar),
        d.wf(),
        0 <= i < d.nrows,
        (Real { bits: ZERO }).below(
            sum_of(ar, product_of(ar, norm_of(ar, d.values), norm_of(ar, y)), norm_of(ar, b)),
        ),
        e.unit(
            e.of(
                sum_of(
                    ar,
                    product_of(ar, norm_of(ar, d.values), norm_of(ar, y)),
                    norm_of(ar, b),
                ),
            ),
        ),
    ensures
        ({
            let left = less(ar, d.applied(ar, y), b);
            &&& e.same(e.of(left[i]), row_times(e, d, i, y) - e.of(b[i]))
            &&& e.same(
                e.of(backward_error(ar, d, y, b)) * (e.of(norm_of(ar, d.values)) * e.of(
                    norm_of(ar, y),
                ) + e.of(norm_of(ar, b))),
                e.of(norm_of(ar, left)),
            )
        }),
{
    let (n, v, w) = (norm_of(ar, d.values), norm_of(ar, y), norm_of(ar, b));
    let p = product_of(ar, n, v);
    let s = sum_of(ar, p, w);
    let left = less(ar, d.applied(ar, y), b);
    lemma_applied_length(ar, d, y);
    rows_are_multiplied_and_added(e, ar, d, y, i);
    let dy = d.applied(ar, y)[i];
    lemma_difference(e, ar, dy, b[i]);
    lemma_nil_sum(
        e,
        e.of(left[i]) - (e.of(dy) - e.of(b[i])),
        e.of(dy) - row_times(e, d, i, y),
    );
    lemma_product(e, ar, n, v);
    lemma_sum(e, ar, p, w);
    let r = norm_of(ar, left);
    lemma_quotient(e, ar, r, s);
    let (x, es, ep, nv, ew, t) = (
        e.of(quotient_of(ar, r, s)),
        e.of(s),
        e.of(p),
        e.of(n) * e.of(v),
        e.of(w),
        e.of(r),
    );
    assert(x * (nv + ew) - t == 1 * (x * es - t) + (-x) * (es - (ep + ew)) + (-x) * (ep - nv))
        by (nonlinear_arith);
    lemma_combine3(e, x * (nv + ew) - t, 1, x * es - t, -x, es - (ep + ew), -x, ep - nv);
}

/// A kernel residual is the root of the sum of the squares of the rows of the matrix, or of
/// its columns where these are asked for, times the vectors.
pub proof fn kernel_residuals_measure_images<A: Arithmetic>(
    e: Exact,
    ar: A,
    a: Csc,
    cols: Seq<Seq<Real>>,
)
    requires
        e.computes(ar),
        a.wf(),
        a.ncols <= u32::MAX,
    ensures
        is_root_of(
            e,
            ar,
            kernel_residual(ar, a, cols, false),
            total_of(
                |j: int|
                    total_of(
                        |i: int| row_times(e, a, i, cols[j]) * row_times(e, a, i, cols[j]),
                        a.nrows as int,
                    ),
                cols.len() as int,
            ),
        ),
        is_root_of(
            e,
            ar,
            kernel_residual(ar, a, cols, true),
            total_of(
                |j: int|
                    total_of(
                        |i: int| column_times(e, a, i, cols[j]) * column_times(e, a, i, cols[j]),
                        a.ncols as int,
                    ),
                cols.len() as int,
            ),
        ),
{
    let k = cols.len() as int;
    let t = a.transposed();
    lemma_transposed_wf(a);
    let (s, u) = (image_squares(ar, a, cols, k), image_squares(ar, t, cols, k));
    kernel_residuals_add_up_images(e, ar, a, cols, k);
    kernel_residuals_add_up_images(e, ar, t, cols, k);
    let f = |j: int|
        total_of(
            |i: int| row_times(e, a, i, cols[j]) * row_times(e, a, i, cols[j]),
            a.nrows as int,
        );
    assert(e.same(e.of(s), total_of(f, k)));
    let g = |j: int|
        total_of(
            |i: int| row_times(e, t, i, cols[j]) * row_times(e, t, i, cols[j]),
            t.nrows as int,
        );
    let h = |j: int|
        total_of(
            |i: int| column_times(e, a, i, cols[j]) * column_times(e, a, i, cols[j]),
            a.ncols as int,
        );
    assert forall|j: int| 0 <= j < k implies e.same(#[trigger] g(j), h(j)) by {
        let gi = |i: int| row_times(e, t, i, cols[j]) * row_times(e, t, i, cols[j]);
        let hi = |i: int| column_times(e, a, i, cols[j]) * column_times(e, a, i, cols[j]);
        assert forall|i: int| 0 <= i < a.ncols implies e.same(#[trigger] gi(i), hi(i)) by {
            rows_are_multiplied_and_added(e, ar, t, cols[j], i);
            columns_are_multiplied_and_added(e, ar, a, cols[j], i);
            let (v, x, y) = (
                e.of(t.applied(ar, cols[j])[i]),
                row_times(e, t, i, cols[j]),
                column_times(e, a, i, cols[j]),
            );
            lemma_same_sym(e, v, x);
            lemma_same_trans(e, x, v, y);
            lemma_swap_factors(e, x, y, x, y);
        }
        lemma_total_same(e, gi, hi, a.ncols as int);
    }
    lemma_total_same(e, g, h, k);
    lemma_same_trans(e, e.of(u), total_of(g, k), total_of(h, k));
}

/// The square of what an entry differs from the identity.
pub open spec fn off_identity(e: Exact, x: Grid, i: int, j: int) -> int {
    let unit: int = if i == j {
        1
    } else {
        0
    };
    (e.of(x.at(i, j)) - unit) * (e.of(x.at(i, j)) - unit)
}

/// The distance from the identity adds up, column by column, the squares of what the
/// entries differ from it.
pub proof fn identity_distances_add_up<A: Arithmetic>(
    e: Exact,
    ar: A,
    x: Grid,
    n: int,
    j: int,
    i: int,
)
    requires
        e.computes(ar),
        0 <= n,
        -1 <= j,
        0 <= i,
    ensures
        e.same(
            e.of(identity_distance(ar, x, n, j, i)),
            if j < 0 {
                0
            } else {
                total_of(|c: int| total_of(|r: int| off_identity(e, x, r, c), n), j) + total_of(
                    |r: int| off_identity(e, x, r, j),
                    i,
                )
            },
        ),
    decreases j + 1, i,
{
    lemma_constants(e, ar);
    if j >= 0 {
        let f = |c: int| total_of(|r: int| off_identity(e, x, r, c), n);
        let g = |r: int| off_identity(e, x, r, j);
        if i == 0 {
            identity_distances_add_up(e, ar, x, n, j - 1, n);
            if j > 0 {
                assert(f(j - 1) == total_of(|r: int| off_identity(e, x, r, j - 1), n));
            }
        } else {
            identity_distances_add_up(e, ar, x, n, j, i - 1);
            let expected = Real {
                bits: if i - 1 == j {
                    ONE
                } else {
                    ZERO
                },
            };
            let cell = x.at(i - 1, j);
            let off = difference_of(ar, cell, expected);
            let before = identity_distance(ar, x, n, j, i - 1);
            let unit: int = if i - 1 == j {
                1
            } else {
                0
            };
            lemma_difference(e, ar, cell, expected);
            lemma_sum_product(e, ar, before, off, off);
            let (o, d) = (e.of(off), e.of(cell) - unit);
            lemma_combine(
                e,
                o - d,
                1,
                o - (e.of(cell) - e.of(expected)),
                -1,
                e.of(expected) - unit,
            );
            lemma_swap_factors(e, o, d, o, d);
            let now = e.of(identity_distance(ar, x, n, j, i));
            let whole = total_of(f, j) + total_of(g, i - 1);
            assert(total_of(g, i) == total_of(g, i - 1) + d * d);
            lemma_combine3(
                e,
                now - (whole + d * d),
                1,
                now - (e.of(before) + o * o),
                1,
                e.of(before) - whole,
                1,
                o * o - d * d,
            );
        }
    }
}

/// The rank is full up to a thousand times the tolerance from the identity for one column,
/// and that times the root of their number for more.
pub proof fn identity_allowances_grow_with_the_root<A: Arithmetic>(
    e: Exact,
    ar: A,
    n: nat,
    tolerance: Real,
)
    requires
        e.computes(ar),
        0 < n <= u64::MAX,
        exact_root(e, ar, count_of(ar, n as u64)),
    ensures
        ({
            let each = product_of(ar, Real { bits: 0x408F_4000_0000_0000 }, tolerance);
            let all = identity_allowance(ar, n, tolerance);
            e.same(e.of(all) * e.of(all), e.of(each) * e.of(each) * n)
        }),
{
    reveal(Exact::computes);
    let each = product_of(ar, Real { bits: 0x408F_4000_0000_0000 }, tolerance);
    let count = count_of(ar, n as u64);
    let root = root_of(ar, count);
    lemma_product(e, ar, each, root);
    let (a, p, r, c) = (e.of(identity_allowance(ar, n, tolerance)), e.of(each), e.of(root), e.of(count));
    lemma_swap_factors(e, a, p * r, a, p * r);
    lemma_same_trans(e, r * r, c, n as int);
    lemma_nil_times(e, p * p, r * r - n);
    assert((p * p) * (r * r - n) == (p * r) * (p * r) - p * p * n) by (nonlinear_arith);
    lemma_same_trans(e, a * a, (p * r) * (p * r), p * p * n);
}

/// A dense array holds a stored entry in its place, and zero where none is stored.
pub proof fn dense_arrays_hold_stored_entries(m: Csc, k: int, l: int, i: int, j: int)
    requires
        0 <= k,
        0 <= i < m.nrows,
        0 <= j < m.ncols,
        forall|s: int|
            0 <= s < k && s != l ==> m.rows[s] != i || #[trigger] m.column_of(s) != j,
    ensures
        0 <= l < k && m.rows[l] == i && m.column_of(l) == j ==> dense_upto(m, k).at(i, j)
            == m.values[l],
        !(0 <= l < k && m.rows[l] == i && m.column_of(l) == j) ==> dense_upto(m, k).at(i, j)
            == (Real { bits: ZERO }),
    decreases k,
{
    if k > 0 {
        dense_arrays_hold_stored_entries(m, k - 1, l, i, j);
        assert(m.column_of(k - 1) == m.column_of(k - 1));
    }
}

/// A mode is a row of the basis times a column of the vectors.
pub proof fn modes_combine_the_basis<A: Arithmetic>(
    e: Exact,
    ar: A,
    basis: Grid,
    vectors: Grid,
    row: int,
    mode: int,
    k: int,
)
    requires
        e.computes(ar),
    ensures
        e.same(
            e.of(rotated_upto(ar, basis, vectors, row, mode, k)),
            total_of(|j: int| e.of(basis.at(row, j)) * e.of(vectors.at(j, mode)), k),
        ),
    decreases k,
{
    let f = |j: int| e.of(basis.at(row, j)) * e.of(vectors.at(j, mode));
    if k <= 0 {
        lemma_constants(e, ar);
    } else {
        modes_combine_the_basis(e, ar, basis, vectors, row, mode, k - 1);
        let before = rotated_upto(ar, basis, vectors, row, mode, k - 1);
        lemma_sum_product(e, ar, before, basis.at(row, k - 1), vectors.at(k - 1, mode));
        lemma_nil_sum(
            e,
            e.of(rotated_upto(ar, basis, vectors, row, mode, k)) - (e.of(before) + f(k - 1)),
            e.of(before) - total_of(f, k - 1),
        );
    }
}

/// No entry of a matrix is larger than its magnitude tells, which is at least one.
pub proof fn magnitudes_bound_all_entries(a: Grid, i: int, j: int, r: int, c: int)
    requires
        0 <= r <= i,
        0 <= c < a.cols,
        r == i ==> c < j,
        !a.at(r, c).nan(),
    ensures
        a.at(r, c).absolute().at_most(magnitude_upto(a, i, j)),
    decreases i + 1, j,
{
    if j <= 0 {
        magnitudes_bound_all_entries(a, i - 1, a.cols as int, r, c);
    } else if r != i || c != j - 1 {
        magnitudes_bound_all_entries(a, i, j - 1, r, c);
    }
}

/// Eigenvalues come in ascending order.
pub proof fn eigenvalues_ascend(b: Grid, v: Grid, values: Seq<Real>, vectors: Grid, i: int, j: int)
    requires
        reads_off(b, v, values, vectors),
        diagonal_numbers(b),
        0 <= i < j < b.rows,
    ensures
        values.len() == b.rows,
        values[i].at_most(values[j]),
{
    let order = choose|order: Seq<usize>|
        {
            &&& #[trigger] permutes(order, b.rows)
            &&& diagonal_numbers(b) ==> ascends(order, b)
            &&& values == Seq::new(b.rows, |i: int| b.at(order[i] as int, order[i] as int))
            &&& vectors == Grid::generated(
                b.rows,
                b.rows,
                |i: int, j: int| v.at(i, order[j] as int),
            )
        };
    assert(order[i] < b.rows && order[j] < b.rows);
}

/// No square is larger than the largest.
pub proof fn largest_squares_bound_all<A: Arithmetic>(ar: A, v: Seq<Real>, k: int, i: int)
    requires
        0 <= i < k <= v.len(),
        !product_of(ar, v[i], v[i]).nan(),
    ensures
        product_of(ar, v[i], v[i]).at_most(largest_square(ar, v, k)),
    decreases k,
{
    if i < k - 1 {
        largest_squares_bound_all(ar, v, k - 1, i);
    }
}

/// A box as seen from a point, with the point added, is the box.
pub proof fn shifted_boxes_are_relative<A: Arithmetic>(
    e: Exact,
    ar: A,
    bounds: BoxBounds,
    x: Seq<Real>,
    b: BoxBounds,
    i: int,
)
    requires
        functional(ar),
        e.computes(ar),
        shifted(ar, bounds, x, b),
        0 <= i < x.len(),
    ensures
        e.same(e.of(b.lower@[i]) + e.of(x[i]), e.of(bounds.lower@[i])),
        e.same(e.of(b.upper@[i]) + e.of(x[i]), e.of(bounds.upper@[i])),
{
    assert(less(ar, bounds.lower@, x).len() == x.len());
    assert(less(ar, bounds.upper@, x).len() == x.len());
    lemma_difference(e, ar, bounds.lower@[i], x[i]);
    lemma_difference(e, ar, bounds.upper@[i], x[i]);
}

/// A box of forces is that of the force densities times the lengths.
pub proof fn force_boxes_are_density_boxes_times_lengths<A: Arithmetic>(
    e: Exact,
    ar: A,
    q_bounds: BoxBounds,
    lengths: Seq<Real>,
    b: BoxBounds,
    i: int,
)
    requires
        functional(ar),
        e.computes(ar),
        force_box_outcome(ar, q_bounds, lengths, Ok(b)),
        0 <= i < lengths.len(),
    ensures
        e.same(e.of(b.lower@[i]), e.of(q_bounds.lower@[i]) * e.of(lengths[i])),
        e.same(e.of(b.upper@[i]), e.of(q_bounds.upper@[i]) * e.of(lengths[i])),
        lengths[i].finite(),
        (Real { bits: ZERO }).below(lengths[i]),
{
    assert(b.lower@[i] == product_of(ar, q_bounds.lower@[i], lengths[i]));
    assert(b.upper@[i] == product_of(ar, q_bounds.upper@[i], lengths[i]));
    lemma_product(e, ar, q_bounds.lower@[i], lengths[i]);
    lemma_product(e, ar, q_bounds.upper@[i], lengths[i]);
}

/// The rows of three made of a list are the list, one after the other.
pub proof fn rows_of_three_are_the_list(n: nat, flat: Seq<Real>, listed: Listed, g: Array2)
    requires
        rows_outcome(n, flat, listed, Ok(g)),
    ensures
        g@.flat() =~= flat,
{
    assert forall|k: int| 0 <= k < 3 * n implies g@.flat()[k] == flat[k] by {
        assert(0 <= k / 3 < n && 0 <= k % 3 < 3 && k == (k / 3) * 3 + k % 3);
    }
}

/// What the particular solution leaves of the loads: rows times the solution, less the loads.
pub proof fn load_residuals_are_rows_less_loads<A: Arithmetic>(
    e: Exact,
    ar: A,
    system: EquilibriumSystem,
    x: Seq<Real>,
    i: int,
)
    requires
        e.computes(ar),
        system.a@.wf(),
        0 <= i < system.a@.nrows,
    ensures
        e.same(
            e.of(residual_of(ar, system, x)[i]),
            row_times(e, system.a@, i, x) - e.of(system.p@[i]),
        ),
{
    lemma_applied_length(ar, system.a@, x);
    rows_are_multiplied_and_added(e, ar, system.a@, x, i);
    let ax = system.a@.applied(ar, x)[i];
    lemma_difference(e, ar, ax, system.p@[i]);
    lemma_nil_sum(
        e,
        e.of(residual_of(ar, system, x)[i]) - (e.of(ax) - e.of(system.p@[i])),
        e.of(ax) - row_times(e, system.a@, i, x),
    );
}

/// A correction found with an exact direct solver is such that what the lengths follow it by
/// cancels their residual, as far as corrections can: the sum of the two is orthogonal to all
/// that corrections do to the lengths.
pub proof fn corrections_cancel_the_residual<A: Arithmetic, B: Backend>(
    e: Exact,
    ar: A,
    b: B,
    matrix: spec_fn(B::Factor) -> Csc,
    system: EquilibriumSystem,
    residual: Seq<Real>,
    options: LengthRetractionOptions,
    c: Vec<Real>,
    k: int,
)
    requires
        functional(ar),
        e.computes(ar),
        solves_exactly(e, b, matrix),
        options.solver == RowSpaceSolver::Saddle,
        corrected(ar, b, system, residual, options, Ok(c)),
        ({
            let j = jacobian_transpose_of(ar, system).transposed();
            &&& j.wf()
            &&& j.nrows + j.ncols <= u32::MAX
            &&& residual.len() == j.nrows
            &&& saddle_matrix(ar, j, Real { bits: ZERO }).wf()
            &&& 0 <= k < j.ncols
        }),
    ensures
        ({
            let j = jacobian_transpose_of(ar, system).transposed();
            e.nil(
                total_of(
                    |i: int| entry(e, j, i, k) * (row_times(e, j, i, c@) + e.of(residual[i])),
                    j.nrows as int,
                ),
            )
        }),
{
    let j = jacobian_transpose_of(ar, system).transposed();
    let zero = Real { bits: ZERO };
    let n = j.nrows as int;
    let back = negatives(residual);
    saddle_solves_are_optimal(e, ar, b, matrix, j, back, zero, c, k);
    lemma_constants(e, ar);
    let f = |i: int| entry(e, j, i, k) * (row_times(e, j, i, c@) + e.of(residual[i]));
    let g = |i: int| entry(e, j, i, k) * (row_times(e, j, i, c@) - e.of(back[i]));
    assert forall|i: int| 0 <= i < n implies e.same(#[trigger] f(i), g(i)) by {
        lemma_negated(e, ar, residual[i]);
        let (a, r, x, y) = (
            entry(e, j, i, k),
            row_times(e, j, i, c@),
            e.of(residual[i]),
            e.of(back[i]),
        );
        lemma_nil_times(e, a, y - (-x));
        assert(a * (y - (-x)) == a * (r + x) - a * (r - y)) by (nonlinear_arith);
    }
    lemma_total_same(e, f, g, n);
    let (z, v) = (e.of(zero), e.of(c@[k]));
    let whole = normal_residual(e, j, back, z, c@, k);
    assert(whole == total_of(g, n) + z * v);
    lemma_nil_times(e, v, z - 0);
    assert(v * (z - 0) == z * v) by (nonlinear_arith);
    lemma_combine3(
        e,
        total_of(f, n),
        1,
        total_of(f, n) - total_of(g, n),
        1,
        whole,
        -1,
        z * v,
    );
}

/// Whether applying the inverse of a weight gives what the weight turns back.
pub open spec fn undoes<A: Arithmetic, B: Backend>(
    e: Exact,
    ar: A,
    b: B,
    w: MetricWeight<B>,
) -> bool {
    forall|r: Seq<Real>, v: Vec<Real>, i: int|
        #![trigger inverse_applied(ar, b, w, r, Ok(v)), row_times(e, w.s@, i, v@)]
        inverse_applied(ar, b, w, r, Ok(v)) && 0 <= i < w.n_eq ==> e.same(
            row_times(e, w.s@, i, v@),
            e.of(r[i]),
        )
}

/// The operator of weighted least squares: the weight times the rows above is the matrix
/// times the unknowns, and the rows below are the damping times the unknowns.
pub proof fn weighted_images_are_weighted_rows<A: Arithmetic, B: Backend>(
    e: Exact,
    ar: A,
    b: B,
    m: Csc,
    w: MetricWeight<B>,
    damping: Real,
    x: Seq<Real>,
    y: Seq<Real>,
    i: int,
    k: int,
)
    requires
        e.computes(ar),
        m.wf(),
        m.nrows == w.n_eq,
        w.s@.ncols == w.n_eq,
        undoes(e, ar, b, w),
        (Real { bits: ZERO }).below(damping),
        image_under(ar, b, m, w, damping, x, Ok(y)),
        0 <= i < m.nrows,
        0 <= k < x.len(),
    ensures
        y.len() == m.nrows + x.len(),
        e.same(row_times(e, w.s@, i, y), row_times(e, m, i, x)),
        e.same(e.of(y[m.nrows + k]), e.of(damping) * e.of(x[k])),
{
    let r = m.applied(ar, x);
    lemma_applied_length(ar, m, x);
    let top = choose|top: Result<Vec<Real>, TheseusError>|
        {
            &&& #[trigger] inverse_applied(ar, b, w, r, top)
            &&& match top {
                Ok(t) => Ok::<_, TheseusError>(y) == Ok::<_, TheseusError>(
                    t@ + damping_rows(ar, damping, x),
                ),
                Err(_) => false,
            }
        };
    let t = top->Ok_0;
    assert(t@.len() == m.nrows);
    rows_are_multiplied_and_added(e, ar, m, x, i);
    let (f, g) = (
        |j: int| entry(e, w.s@, i, j) * e.of(y[j]),
        |j: int| entry(e, w.s@, i, j) * e.of(t@[j]),
    );
    lemma_total_equal(f, g, w.n_eq as int);
    assert(e.same(row_times(e, w.s@, i, t@), e.of(r[i])));
    lemma_same_trans(e, row_times(e, w.s@, i, y), e.of(r[i]), row_times(e, m, i, x));
    lemma_product(e, ar, damping, x[k]);
}

/// The operator back: the columns of the matrix times what the weight turns into the rows
/// above, and the damping times the rows below.
pub proof fn weighted_images_go_back_by_columns<A: Arithmetic, B: Backend>(
    e: Exact,
    ar: A,
    b: B,
    m: Csc,
    w: MetricWeight<B>,
    damping: Real,
    y: Seq<Real>,
    z: Seq<Real>,
    k: int,
)
    requires
        e.computes(ar),
        m.wf(),
        m.ncols <= u32::MAX,
        m.nrows == w.n_eq,
        undoes(e, ar, b, w),
        (Real { bits: ZERO }).below(damping),
        y.len() == m.nrows + m.ncols,
        image_back(ar, b, m, w, damping, y, Ok(z)),
        0 <= k < m.ncols,
    ensures
        exists|t: Vec<Real>|
            {
                &&& forall|i: int|
                    0 <= i < m.nrows ==> e.same(
                        #[trigger] row_times(e, w.s@, i, t@),
                        e.of(y[i]),
                    )
                &&& e.same(
                    e.of(z[k]),
                    #[trigger] column_times(e, m, k, t@) + e.of(damping) * e.of(y[m.nrows + k]),
                )
            },
{
    let up = y.subrange(0, m.nrows as int);
    let low = y.subrange(m.nrows as int, y.len() as int);
    let top = choose|top: Result<Vec<Real>, TheseusError>|
        {
            &&& #[trigger] inverse_applied(ar, b, w, up, top)
            &&& match top {
                Ok(t) => z == moved(
                    ar,
                    m.transposed().applied(ar, t@),
                    damping,
                    low,
                ),
                Err(_) => false,
            }
        };
    let t = top->Ok_0;
    assert forall|i: int| 0 <= i < m.nrows implies e.same(
        #[trigger] row_times(e, w.s@, i, t@),
        e.of(y[i]),
    ) by {
        assert(inverse_applied(ar, b, w, up, Ok(t)));
    }
    lemma_transposed_wf(m);
    lemma_applied_length(ar, m.transposed(), t@);
    columns_are_multiplied_and_added(e, ar, m, t@, k);
    let c = m.transposed().applied(ar, t@)[k];
    lemma_sum_product(e, ar, c, damping, low[k]);
    lemma_nil_sum(
        e,
        e.of(z[k]) - (e.of(c) + e.of(damping) * e.of(low[k])),
        e.of(c) - column_times(e, m, k, t@),
    );
    assert(e.same(
        e.of(z[k]),
        column_times(e, m, k, t@) + e.of(damping) * e.of(y[m.nrows + k]),
    ));
}

} // verus!
