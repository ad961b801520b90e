//! What is left of a basis when another one is taken off.

use crate::arithmetic::{quotient_of, Arithmetic};
use crate::basis::{
    deflated, first_columns, orthonormal, stripped, stripped_columns, twice_deflated,
};
use crate::double::{Real, ONE};
use crate::exact::{
    dot_products_add_up, inner, lemma_combine, lemma_combine3, lemma_combine4, lemma_constants,
    lemma_difference_product, lemma_negated, lemma_nil_times, lemma_nil_zero, lemma_product,
    lemma_quotient, lemma_same_trans, lemma_sum_product, lemma_total_equal, lemma_total_linear,
    lemma_total_same, total_of, Exact,
};
use crate::vector::{dot_upto, norm_of, scaled};
use vstd::prelude::*;

verus! {

/// One where `k` and `l` are equal, else zero.
pub open spec fn delta(k: int, l: int) -> int {
    if k == l {
        1
    } else {
        0
    }
}

/// Whether all columns have `rows` entries, length one, and are orthogonal to each other.
pub open spec fn orthonormal_columns(e: Exact, cols: Seq<Seq<Real>>, rows: nat) -> bool {
    &&& forall|k: int| 0 <= k < cols.len() ==> (#[trigger] cols[k]).len() == rows
    &&& forall|k: int, l: int|
        0 <= k < cols.len() && 0 <= l < cols.len() ==> e.same(
            #[trigger] inner(e, cols[k], cols[l]),
            delta(k, l),
        )
}

/// Whether `z` is `w` with `c` times `u` added.
pub open spec fn shifted_by(e: Exact, z: Seq<Real>, w: Seq<Real>, c: int, u: Seq<Real>) -> bool {
    &&& z.len() == w.len()
    &&& u.len() == w.len()
    &&& forall|i: int|
        0 <= i < w.len() ==> e.same(#[trigger] e.of(z[i]), e.of(w[i]) + c * e.of(u[i]))
}

/// Products are linear.
pub(crate) proof fn lemma_inner_shifted(
    e: Exact,
    x: Seq<Real>,
    z: Seq<Real>,
    w: Seq<Real>,
    c: int,
    u: Seq<Real>,
)
    requires
        shifted_by(e, z, w, c, u),
        x.len() == w.len(),
    ensures
        e.same(inner(e, x, z), inner(e, x, w) + c * inner(e, x, u)),
        e.same(inner(e, z, x), inner(e, x, w) + c * inner(e, x, u)),
{
    let n = x.len() as int;
    let f = |i: int| e.of(x[i]) * e.of(z[i]);
    let back = |i: int| e.of(z[i]) * e.of(x[i]);
    let p = |i: int| e.of(x[i]) * e.of(w[i]);
    let q = |i: int| e.of(x[i]) * e.of(u[i]);
    let g = |i: int| 1 * p(i) + c * q(i);
    assert forall|i: int| 0 <= i < n implies e.same(#[trigger] f(i), g(i)) by {
        let (a, b, s, t) = (e.of(x[i]), e.of(z[i]), e.of(w[i]), e.of(u[i]));
        assert(e.same(e.of(z[i]), s + c * t));
        lemma_nil_times(e, a, b - (s + c * t));
        assert(a * (b - (s + c * t)) == a * b - (1 * (a * s) + c * (a * t))) by (nonlinear_arith);
    }
    lemma_total_same(e, f, g, n);
    lemma_total_linear(p, q, 1, c, n);
    assert forall|i: int| 0 <= i < n implies #[trigger] back(i) == f(i) by {
        let (a, b) = (e.of(x[i]), e.of(z[i]));
        assert(a * b == b * a) by (nonlinear_arith);
    }
    lemma_total_equal(back, f, n);
}

pub(crate) proof fn lemma_inner_swap(e: Exact, x: Seq<Real>, y: Seq<Real>)
    requires
        x.len() == y.len(),
    ensures
        inner(e, x, y) == inner(e, y, x),
{
    let f = |i: int| e.of(x[i]) * e.of(y[i]);
    let g = |i: int| e.of(y[i]) * e.of(x[i]);
    assert forall|i: int| 0 <= i < x.len() implies #[trigger] f(i) == g(i) by {
        let (a, b) = (e.of(x[i]), e.of(y[i]));
        assert(a * b == b * a) by (nonlinear_arith);
    }
    lemma_total_equal(f, g, x.len() as int);
}

proof fn lemma_stripped_step<A: Arithmetic>(
    e: Exact,
    ar: A,
    v: Seq<Real>,
    removed: Seq<Seq<Real>>,
    k: int,
)
    requires
        e.computes(ar),
        0 < k <= removed.len(),
        removed[k - 1].len() == v.len(),
        stripped(ar, v, removed, k - 1).len() == v.len(),
    ensures
        ({
            let w = stripped(ar, v, removed, k - 1);
            let along = dot_upto(ar, removed[k - 1], w, w.len() as int);
            &&& stripped(ar, v, removed, k).len() == v.len()
            &&& shifted_by(e, stripped(ar, v, removed, k), w, -e.of(along), removed[k - 1])
            &&& e.same(e.of(along), inner(e, removed[k - 1], w))
        }),
{
    let w = stripped(ar, v, removed, k - 1);
    let u = removed[k - 1];
    let along = dot_upto(ar, u, w, w.len() as int);
    let z = stripped(ar, v, removed, k);
    dot_products_add_up(e, ar, u, w, w.len() as int);
    assert forall|i: int| 0 <= i < w.len() implies e.same(
        #[trigger] e.of(z[i]),
        e.of(w[i]) + (-e.of(along)) * e.of(u[i]),
    ) by {
        lemma_difference_product(e, ar, w[i], along, u[i]);
        let (a, b) = (e.of(along), e.of(u[i]));
        assert((-a) * b == -(a * b)) by (nonlinear_arith);
    }
}

proof fn lemma_stripped_len<A: Arithmetic>(
    ar: A,
    v: Seq<Real>,
    removed: Seq<Seq<Real>>,
    k: int,
)
    ensures
        stripped(ar, v, removed, k).len() == v.len(),
    decreases k,
{
    if k > 0 {
        lemma_stripped_len(ar, v, removed, k - 1);
    }
}

/// What is stripped of the first columns of an orthonormal basis is orthogonal to them.
pub proof fn stripping_leaves_what_is_orthogonal<A: Arithmetic>(
    e: Exact,
    ar: A,
    v: Seq<Real>,
    removed: Seq<Seq<Real>>,
    k: int,
    l: int,
)
    requires
        e.computes(ar),
        orthonormal_columns(e, removed, v.len()),
        0 <= l < k <= removed.len(),
    ensures
        e.nil(inner(e, removed[l], stripped(ar, v, removed, k))),
    decreases k,
{
    lemma_stripped_len(ar, v, removed, k - 1);
    lemma_stripped_step(e, ar, v, removed, k);
    let w = stripped(ar, v, removed, k - 1);
    let u = removed[k - 1];
    let z = stripped(ar, v, removed, k);
    let a = e.of(dot_upto(ar, u, w, w.len() as int));
    lemma_inner_shifted(e, removed[l], z, w, -a, u);
    let goal = inner(e, removed[l], z);
    let x = inner(e, removed[l], w);
    let y = inner(e, removed[l], u);
    assert(e.same(y, delta(l, k - 1)));
    if l < k - 1 {
        stripping_leaves_what_is_orthogonal(e, ar, v, removed, k - 1, l);
        assert(goal == 1 * (goal - (x + (-a) * y)) + 1 * x + (-a) * (y - 0)) by (nonlinear_arith);
        lemma_combine3(e, goal, 1, goal - (x + (-a) * y), 1, x, -a, y - 0);
    } else {
        assert(goal == 1 * (goal - (x + (-a) * y)) + (-1) * (a - x) + (-a) * (y - 1))
            by (nonlinear_arith);
        lemma_combine3(e, goal, 1, goal - (x + (-a) * y), -1, a - x, -a, y - 1);
    }
}

/// Stripping a vector of an orthonormal basis takes off its projection and nothing else:
/// entry `i` of what is left is entry `i` of the vector less the sum, over the columns, of
/// the product of vector and column times entry `i` of the column.
pub proof fn stripping_takes_off_the_projection<A: Arithmetic>(
    e: Exact,
    ar: A,
    v: Seq<Real>,
    removed: Seq<Seq<Real>>,
    k: int,
    i: int,
)
    requires
        e.computes(ar),
        orthonormal_columns(e, removed, v.len()),
        0 <= k <= removed.len(),
        0 <= i < v.len(),
    ensures
        e.same(
            e.of(stripped(ar, v, removed, k)[i]),
            e.of(v[i]) - total_of(
                |l: int| inner(e, removed[l], v) * e.of(removed[l][i]),
                k,
            ),
        ),
    decreases k,
{
    let f = |l: int| inner(e, removed[l], v) * e.of(removed[l][i]);
    if k == 0 {
        lemma_nil_zero(e);
    } else {
        stripping_takes_off_the_projection(e, ar, v, removed, k - 1, i);
        lemma_stripped_len(ar, v, removed, k - 1);
        lemma_stripped_step(e, ar, v, removed, k);
        let w = stripped(ar, v, removed, k - 1);
        let u = removed[k - 1];
        let z = stripped(ar, v, removed, k);
        let a = e.of(dot_upto(ar, u, w, w.len() as int));
        lemma_kept_products(e, ar, v, removed, k - 1, k - 1);
        let b = inner(e, u, w);
        let c = inner(e, u, v);
        let t = total_of(f, k - 1);
        let (zi, wi, ui, vi) = (e.of(z[i]), e.of(w[i]), e.of(u[i]), e.of(v[i]));
        assert(e.same(e.of(z[i]), wi + (-a) * ui));
        let goal = zi - (vi - (t + c * ui));
        assert(goal == 1 * (zi - (wi + (-a) * ui)) + 1 * (wi - (vi - t)) + (-ui) * (a - b) + (-ui)
            * (b - c)) by (nonlinear_arith)
            requires
                goal == zi - (vi - (t + c * ui)),
        ;
        lemma_combine4(
            e,
            goal,
            1,
            zi - (wi + (-a) * ui),
            1,
            wi - (vi - t),
            -ui,
            a - b,
            -ui,
            b - c,
        );
    }
}

/// Stripping off some columns keeps the products with the others.
proof fn lemma_kept_products<A: Arithmetic>(
    e: Exact,
    ar: A,
    v: Seq<Real>,
    removed: Seq<Seq<Real>>,
    k: int,
    l: int,
)
    requires
        e.computes(ar),
        orthonormal_columns(e, removed, v.len()),
        0 <= k <= l < removed.len(),
    ensures
        e.same(inner(e, removed[l], stripped(ar, v, removed, k)), inner(e, removed[l], v)),
    decreases k,
{
    if k == 0 {
        lemma_nil_zero(e);
    } else {
        lemma_kept_products(e, ar, v, removed, k - 1, l);
        lemma_stripped_len(ar, v, removed, k - 1);
        lemma_stripped_step(e, ar, v, removed, k);
        let w = stripped(ar, v, removed, k - 1);
        let u = removed[k - 1];
        let z = stripped(ar, v, removed, k);
        let a = e.of(dot_upto(ar, u, w, w.len() as int));
        lemma_inner_shifted(e, removed[l], z, w, -a, u);
        let (s, x, y, t) = (
            inner(e, removed[l], z),
            inner(e, removed[l], w),
            inner(e, removed[l], u),
            inner(e, removed[l], v),
        );
        assert(e.same(y, delta(l, k - 1)));
        assert(s - t == 1 * (s - (x + (-a) * y)) + 1 * (x - t) + (-a) * (y - 0))
            by (nonlinear_arith);
        lemma_combine3(e, s - t, 1, s - (x + (-a) * y), 1, x - t, -a, y - 0);
    }
}

proof fn lemma_deflated_step<A: Arithmetic>(
    e: Exact,
    ar: A,
    v: Seq<Real>,
    cols: Seq<Seq<Real>>,
    k: int,
)
    requires
        e.computes(ar),
        0 < k <= cols.len(),
        cols[k - 1].len() == v.len(),
        deflated(ar, v, cols, k - 1).len() == v.len(),
    ensures
        ({
            let w = deflated(ar, v, cols, k - 1);
            let along = dot_upto(ar, w, cols[k - 1], w.len() as int);
            &&& deflated(ar, v, cols, k).len() == v.len()
            &&& shifted_by(e, deflated(ar, v, cols, k), w, -e.of(along), cols[k - 1])
            &&& e.same(e.of(along), inner(e, cols[k - 1], w))
        }),
{
    let w = deflated(ar, v, cols, k - 1);
    let u = cols[k - 1];
    let along = dot_upto(ar, w, u, w.len() as int);
    let z = deflated(ar, v, cols, k);
    dot_products_add_up(e, ar, w, u, w.len() as int);
    lemma_inner_swap(e, w, u);
    lemma_negated(e, ar, along);
    assert forall|i: int| 0 <= i < w.len() implies e.same(
        #[trigger] e.of(z[i]),
        e.of(w[i]) + (-e.of(along)) * e.of(u[i]),
    ) by {
        lemma_sum_product(e, ar, w[i], along.negated(), u[i]);
        let (zi, wi, ui) = (e.of(z[i]), e.of(w[i]), e.of(u[i]));
        let (a, b) = (e.of(along), e.of(along.negated()));
        assert(zi - (wi + (-a) * ui) == 1 * (zi - (wi + b * ui)) + ui * (b - (-a)))
            by (nonlinear_arith);
        lemma_combine(e, zi - (wi + (-a) * ui), 1, zi - (wi + b * ui), ui, b - (-a));
    }
}

proof fn lemma_deflated_len<A: Arithmetic>(ar: A, v: Seq<Real>, cols: Seq<Seq<Real>>, k: int)
    ensures
        deflated(ar, v, cols, k).len() == v.len(),
    decreases k,
{
    if k > 0 {
        lemma_deflated_len(ar, v, cols, k - 1);
    }
}

/// What is orthogonal to a vector and to columns stays orthogonal to the vector less its
/// components along the columns.
proof fn lemma_deflated_orthogonal<A: Arithmetic>(
    e: Exact,
    ar: A,
    x: Seq<Real>,
    v: Seq<Real>,
    cols: Seq<Seq<Real>>,
    k: int,
)
    requires
        e.computes(ar),
        x.len() == v.len(),
        0 <= k <= cols.len(),
        forall|l: int| 0 <= l < cols.len() ==> (#[trigger] cols[l]).len() == v.len(),
        forall|l: int| 0 <= l < k ==> e.nil(inner(e, x, #[trigger] cols[l])),
        e.nil(inner(e, x, v)),
    ensures
        e.nil(inner(e, x, deflated(ar, v, cols, k))),
    decreases k,
{
    if k > 0 {
        lemma_deflated_orthogonal(e, ar, x, v, cols, k - 1);
        lemma_deflated_len(ar, v, cols, k - 1);
        assert(cols[k - 1].len() == v.len());
        lemma_deflated_step(e, ar, v, cols, k);
        let w = deflated(ar, v, cols, k - 1);
        let a = e.of(dot_upto(ar, w, cols[k - 1], w.len() as int));
        let z = deflated(ar, v, cols, k);
        lemma_inner_shifted(e, x, z, w, -a, cols[k - 1]);
        let (s, t, y) = (inner(e, x, z), inner(e, x, w), inner(e, x, cols[k - 1]));
        assert(s == 1 * (s - (t + (-a) * y)) + 1 * t + (-a) * y) by (nonlinear_arith);
        lemma_combine3(e, s, 1, s - (t + (-a) * y), 1, t, -a, y);
    }
}

/// What is deflated by orthonormal columns is orthogonal to them.
proof fn lemma_deflated_by_units<A: Arithmetic>(
    e: Exact,
    ar: A,
    v: Seq<Real>,
    cols: Seq<Seq<Real>>,
    k: int,
    l: int,
)
    requires
        e.computes(ar),
        orthonormal_columns(e, cols, v.len()),
        0 <= l < k <= cols.len(),
    ensures
        e.nil(inner(e, cols[l], deflated(ar, v, cols, k))),
    decreases k,
{
    lemma_deflated_len(ar, v, cols, k - 1);
    lemma_deflated_step(e, ar, v, cols, k);
    let w = deflated(ar, v, cols, k - 1);
    let u = cols[k - 1];
    let z = deflated(ar, v, cols, k);
    let a = e.of(dot_upto(ar, w, u, w.len() as int));
    lemma_inner_shifted(e, cols[l], z, w, -a, u);
    let (goal, x, y) = (inner(e, cols[l], z), inner(e, cols[l], w), inner(e, cols[l], u));
    assert(e.same(y, delta(l, k - 1)));
    if l < k - 1 {
        lemma_deflated_by_units(e, ar, v, cols, k - 1, l);
        assert(goal == 1 * (goal - (x + (-a) * y)) + 1 * x + (-a) * (y - 0)) by (nonlinear_arith);
        lemma_combine3(e, goal, 1, goal - (x + (-a) * y), 1, x, -a, y - 0);
    } else {
        assert(goal == 1 * (goal - (x + (-a) * y)) + (-1) * (a - x) + (-a) * (y - 1))
            by (nonlinear_arith);
        lemma_combine3(e, goal, 1, goal - (x + (-a) * y), -1, a - x, -a, y - 1);
    }
}

pub(crate) proof fn lemma_inner_scaled<A: Arithmetic>(
    e: Exact,
    ar: A,
    x: Seq<Real>,
    v: Seq<Real>,
    f: Real,
)
    requires
        e.computes(ar),
        x.len() == v.len(),
    ensures
        e.same(inner(e, x, scaled(ar, v, f)), e.of(f) * inner(e, x, v)),
{
    let n = x.len() as int;
    let z = scaled(ar, v, f);
    let p = |i: int| e.of(x[i]) * e.of(z[i]);
    let q = |i: int| e.of(x[i]) * e.of(v[i]);
    let g = |i: int| e.of(f) * q(i) + 0 * q(i);
    assert forall|i: int| 0 <= i < n implies e.same(#[trigger] p(i), g(i)) by {
        lemma_product(e, ar, v[i], f);
        let (a, b, c, d) = (e.of(x[i]), e.of(z[i]), e.of(v[i]), e.of(f));
        lemma_nil_times(e, a, b - c * d);
        assert(a * (b - c * d) == a * b - (d * (a * c) + 0 * (a * c))) by (nonlinear_arith);
    }
    lemma_total_same(e, p, g, n);
    lemma_total_linear(q, q, e.of(f), 0, n);
    assert(0 * total_of(q, n) == 0) by (nonlinear_arith);
}

proof fn lemma_orthonormal_lengths<A: Arithmetic>(
    ar: A,
    input: Seq<Seq<Real>>,
    tolerance: Real,
    rows: nat,
    j: int,
)
    requires
        0 <= j <= input.len(),
        forall|l: int| 0 <= l < input.len() ==> (#[trigger] input[l]).len() == rows,
    ensures
        forall|k: int|
            0 <= k < orthonormal(ar, input, tolerance, j).len() ==> (#[trigger] orthonormal(
                ar,
                input,
                tolerance,
                j,
            )[k]).len() == rows,
    decreases j,
{
    if j > 0 {
        lemma_orthonormal_lengths(ar, input, tolerance, rows, j - 1);
        let before = orthonormal(ar, input, tolerance, j - 1);
        let once = deflated(ar, input[j - 1], before, before.len() as int);
        lemma_deflated_len(ar, input[j - 1], before, before.len() as int);
        lemma_deflated_len(ar, once, before, before.len() as int);
    }
}

/// What is orthogonal to all columns is orthogonal to the columns that they give.
proof fn lemma_orthogonal_to_all<A: Arithmetic>(
    e: Exact,
    ar: A,
    x: Seq<Real>,
    input: Seq<Seq<Real>>,
    tolerance: Real,
    j: int,
)
    requires
        e.computes(ar),
        0 <= j <= input.len(),
        forall|l: int| 0 <= l < input.len() ==> (#[trigger] input[l]).len() == x.len(),
        forall|l: int| 0 <= l < input.len() ==> e.nil(inner(e, x, #[trigger] input[l])),
    ensures
        forall|k: int|
            0 <= k < orthonormal(ar, input, tolerance, j).len() ==> e.nil(
                inner(e, x, #[trigger] orthonormal(ar, input, tolerance, j)[k]),
            ),
    decreases j,
{
    if j > 0 {
        lemma_orthogonal_to_all(e, ar, x, input, tolerance, j - 1);
        lemma_orthonormal_lengths(ar, input, tolerance, x.len(), j - 1);
        let before = orthonormal(ar, input, tolerance, j - 1);
        let now = orthonormal(ar, input, tolerance, j);
        let n = before.len() as int;
        assert(e.nil(inner(e, x, input[j - 1])));
        assert(input[j - 1].len() == x.len());
        let once = deflated(ar, input[j - 1], before, n);
        lemma_deflated_len(ar, input[j - 1], before, n);
        lemma_deflated_orthogonal(e, ar, x, input[j - 1], before, n);
        lemma_deflated_len(ar, once, before, n);
        lemma_deflated_orthogonal(e, ar, x, once, before, n);
        let v = twice_deflated(ar, input[j - 1], before);
        let size = norm_of(ar, v);
        if tolerance.below(size) {
            let f = quotient_of(ar, Real { bits: ONE }, size);
            lemma_inner_scaled(e, ar, x, v, f);
            let (s, t) = (inner(e, x, scaled(ar, v, f)), inner(e, x, v));
            assert(s == 1 * (s - e.of(f) * t) + e.of(f) * t) by (nonlinear_arith);
            lemma_combine(e, s, 1, s - e.of(f) * t, e.of(f), t);
            assert forall|k: int| 0 <= k < now.len() implies e.nil(
                inner(e, x, #[trigger] now[k]),
            ) by {
                if k < before.len() {
                    assert(now[k] == before[k]);
                }
            }
        }
    }
}

/// What is left of a basis when an orthonormal one is taken off is orthogonal to it: every
/// column that comes back is orthogonal to every column that was removed.
pub proof fn what_is_left_is_orthogonal_to_what_was_removed<A: Arithmetic>(
    e: Exact,
    ar: A,
    basis: Seq<Seq<Real>>,
    removed: Seq<Seq<Real>>,
    rows: nat,
    max_modes: nat,
    tolerance: Real,
    j: int,
    k: int,
)
    requires
        e.computes(ar),
        forall|l: int| 0 <= l < basis.len() ==> (#[trigger] basis[l]).len() == rows,
        orthonormal_columns(e, removed, rows),
        0 <= k < removed.len(),
    ensures
        ({
            let left = first_columns(
                orthonormal(
                    ar,
                    stripped_columns(ar, basis, removed),
                    tolerance,
                    basis.len() as int,
                ),
                max_modes,
            );
            0 <= j < left.len() ==> e.nil(inner(e, removed[k], left[j]))
        }),
{
    let input = stripped_columns(ar, basis, removed);
    let n = removed.len() as int;
    assert forall|l: int| 0 <= l < input.len() implies (#[trigger] input[l]).len() == rows
        && e.nil(inner(e, removed[k], input[l])) by {
        assert(basis[l].len() == rows);
        lemma_stripped_len(ar, basis[l], removed, n);
        stripping_leaves_what_is_orthogonal(e, ar, basis[l], removed, n, k);
    }
    assert(removed[k].len() == rows);
    lemma_orthogonal_to_all(e, ar, removed[k], input, tolerance, input.len() as int);
}

/// Whether the norms that columns are divided by are exact: each is a unit whose square is
/// the product of what is left of the column with itself.
pub open spec fn exact_norms<A: Arithmetic>(
    e: Exact,
    ar: A,
    input: Seq<Seq<Real>>,
    tolerance: Real,
) -> bool {
    forall|j: int|
        0 <= j < input.len() ==> {
            let v = twice_deflated(ar, input[j], #[trigger] orthonormal(ar, input, tolerance, j));
            tolerance.below(norm_of(ar, v)) ==> {
                &&& e.unit(e.of(norm_of(ar, v)))
                &&& e.same(e.of(norm_of(ar, v)) * e.of(norm_of(ar, v)), inner(e, v, v))
            }
        }
}

/// The columns that orthonormalization gives have length one and are orthogonal to each
/// other.
pub proof fn orthonormalized_columns_are_orthonormal<A: Arithmetic>(
    e: Exact,
    ar: A,
    input: Seq<Seq<Real>>,
    tolerance: Real,
    rows: nat,
    j: int,
)
    requires
        e.computes(ar),
        forall|l: int| 0 <= l < input.len() ==> (#[trigger] input[l]).len() == rows,
        exact_norms(e, ar, input, tolerance),
        0 <= j <= input.len(),
    ensures
        orthonormal_columns(e, orthonormal(ar, input, tolerance, j), rows),
    decreases j,
{
    if j > 0 {
        orthonormalized_columns_are_orthonormal(e, ar, input, tolerance, rows, j - 1);
        let before = orthonormal(ar, input, tolerance, j - 1);
        let now = orthonormal(ar, input, tolerance, j);
        let n = before.len() as int;
        let once = deflated(ar, input[j - 1], before, n);
        assert(input[j - 1].len() == rows);
        lemma_deflated_len(ar, input[j - 1], before, n);
        lemma_deflated_len(ar, once, before, n);
        let v = twice_deflated(ar, input[j - 1], before);
        let size = norm_of(ar, v);
        if tolerance.below(size) {
            let f = quotient_of(ar, Real { bits: ONE }, size);
            let z = scaled(ar, v, f);
            lemma_unit_length(e, ar, v, size);
            assert forall|l: int| 0 <= l < n implies e.nil(inner(e, #[trigger] before[l], z))
                && e.nil(inner(e, z, before[l])) by {
                lemma_deflated_by_units(e, ar, once, before, n, l);
                lemma_inner_scaled(e, ar, before[l], v, f);
                let (s, t) = (inner(e, before[l], z), inner(e, before[l], v));
                assert(s == 1 * (s - e.of(f) * t) + e.of(f) * t) by (nonlinear_arith);
                lemma_combine(e, s, 1, s - e.of(f) * t, e.of(f), t);
                lemma_inner_swap(e, before[l], z);
            }
            assert forall|k: int, l: int| 0 <= k < now.len() && 0 <= l < now.len() implies e.same(
                #[trigger] inner(e, now[k], now[l]),
                delta(k, l),
            ) by {
                if k < n && l < n {
                    assert(e.same(inner(e, before[k], before[l]), delta(k, l)));
                } else if k < n {
                    assert(e.nil(inner(e, before[k], z)));
                } else if l < n {
                    assert(e.nil(inner(e, before[l], z)));
                }
            }
        }
    }
}

/// A vector over its norm has length one.
proof fn lemma_unit_length<A: Arithmetic>(e: Exact, ar: A, v: Seq<Real>, size: Real)
    requires
        e.computes(ar),
        e.unit(e.of(size)),
        e.same(e.of(size) * e.of(size), inner(e, v, v)),
    ensures
        ({
            let z = scaled(ar, v, quotient_of(ar, Real { bits: ONE }, size));
            e.same(inner(e, z, z), 1)
        }),
{
    let f = quotient_of(ar, Real { bits: ONE }, size);
    let z = scaled(ar, v, f);
    lemma_quotient(e, ar, Real { bits: ONE }, size);
    lemma_constants(e, ar);
    lemma_inner_scaled(e, ar, z, v, f);
    lemma_inner_scaled(e, ar, v, v, f);
    lemma_inner_swap(e, z, v);
    let (g, n, one) = (e.of(f), e.of(size), e.of(Real { bits: ONE }));
    let (zz, zv, vv) = (inner(e, z, z), inner(e, z, v), inner(e, v, v));
    lemma_same_trans(e, g * n, one, 1);
    assert(zz - g * (g * vv) == 1 * (zz - g * zv) + g * (zv - g * vv)) by (nonlinear_arith);
    lemma_combine(e, zz - g * (g * vv), 1, zz - g * zv, g, zv - g * vv);
    assert(zz - 1 == 1 * (zz - g * (g * vv)) + (-(g * g)) * (n * n - vv) + (g * n + 1) * (g * n
        - 1)) by (nonlinear_arith);
    lemma_combine3(
        e,
        zz - 1,
        1,
        zz - g * (g * vv),
        -(g * g),
        n * n - vv,
        g * n + 1,
        g * n - 1,
    );
}

} // verus!
