//! What rotations keep of a symmetric matrix, and what its eigenvectors satisfy.

use crate::arithmetic::{
    angle_of, cosine_of, difference_of, functional, product_of, sine_of, sum_of, Arithmetic,
};
use crate::array::{Array2, Grid};
use crate::double::{Real, HALF, ONE, TWO, ZERO};
use crate::eigen::{
    eigen_outcome, off_diagonal_threshold, permutes, pivot_of, pivot_upto, rotation_angle,
    rotation_limit, rotations, turned, turned_first, turned_pp, turned_qq, turned_second,
    turned_vectors,
};
use crate::exact::{
    lemma_cancel, lemma_combine, lemma_combine3, lemma_combine4, lemma_constants, lemma_difference,
    lemma_nil_sum, lemma_nil_times, lemma_nil_zero, lemma_product, lemma_same_sym, lemma_same_trans,
    lemma_sum, lemma_total_equal, lemma_total_linear, lemma_total_same, lemma_total_single,
    total_of, Exact,
};
use crate::stripping::delta;
use vstd::prelude::*;

verus! {

/// What stands in row `i` and column `j`.
pub open spec fn cell(e: Exact, a: Grid, i: int, j: int) -> int {
    e.of(a.at(i, j))
}

/// Row `i` of `a` times column `j` of `b`.
pub open spec fn crossed(e: Exact, a: Grid, b: Grid, i: int, j: int) -> int {
    total_of(|l: int| cell(e, a, i, l) * cell(e, b, l, j), a.cols as int)
}

/// Column `i` of `a` times column `j` of it.
pub open spec fn columns_crossed(e: Exact, a: Grid, i: int, j: int) -> int {
    total_of(|l: int| cell(e, a, l, i) * cell(e, a, l, j), a.rows as int)
}

/// Whether a square matrix is symmetric.
pub open spec fn symmetric(a: Grid) -> bool {
    &&& a.rows == a.cols
    &&& forall|i: int, j: int|
        0 <= i < a.rows && 0 <= j < a.rows ==> #[trigger] a.at(i, j) == a.at(j, i)
}

/// Whether half the angle of the point `(x, y)` has a sine and a cosine as it should: their
/// squares add up to one, and by the formulas for double angles `y cos 2h = x sin 2h`.
pub open spec fn exact_half_angle<A: Arithmetic>(e: Exact, ar: A, y: Real, x: Real) -> bool {
    let half = product_of(ar, Real { bits: HALF }, angle_of(ar, y, x));
    let c = e.of(cosine_of(ar, half));
    let s = e.of(sine_of(ar, half));
    &&& e.same(c * c + s * s, 1)
    &&& e.same((c * c - s * s) * e.of(y), 2 * (s * c) * e.of(x))
}

/// Whether the rotation in the plane of `p` and `q` turns by an exact angle, half that of
/// `2 a_pq` over `a_qq - a_pp`.
pub open spec fn turns_exactly<A: Arithmetic>(e: Exact, ar: A, a: Grid, p: int, q: int) -> bool {
    exact_half_angle(
        e,
        ar,
        product_of(ar, Real { bits: TWO }, a.at(p, q)),
        difference_of(ar, a.at(q, q), a.at(p, p)),
    )
}

/// Totals that differ in two terms.
proof fn lemma_total_two(
    e: Exact,
    f: spec_fn(int) -> int,
    g: spec_fn(int) -> int,
    n: int,
    p: int,
    q: int,
)
    requires
        0 <= p < n,
        0 <= q < n,
        p != q,
        forall|k: int| 0 <= k < n && k != p && k != q ==> e.same(#[trigger] f(k), g(k)),
    ensures
        e.same(total_of(f, n), total_of(g, n) + (f(p) - g(p)) + (f(q) - g(q))),
{
    let at_p = |k: int|
        if k == p {
            f(p) - g(p)
        } else {
            0
        };
    let at_q = |k: int|
        if k == q {
            f(q) - g(q)
        } else {
            0
        };
    let both = |k: int| 1 * at_p(k) + 1 * at_q(k);
    let all = |k: int| 1 * g(k) + 1 * both(k);
    assert forall|k: int| 0 <= k < n implies e.same(#[trigger] f(k), all(k)) by {
        lemma_nil_zero(e);
    }
    lemma_total_same(e, f, all, n);
    lemma_total_linear(g, both, 1, 1, n);
    lemma_total_linear(at_p, at_q, 1, 1, n);
    lemma_total_single(at_p, n, p);
    lemma_total_single(at_q, n, q);
}

proof fn lemma_turned_first<A: Arithmetic>(e: Exact, ar: A, c: Real, s: Real, x: Real, y: Real)
    requires
        e.computes(ar),
    ensures
        e.same(
            e.of(turned_first(ar, c, s, x, y)),
            e.of(c) * e.of(x) - e.of(s) * e.of(y),
        ),
{
    let (a, b) = (product_of(ar, c, x), product_of(ar, s, y));
    lemma_product(e, ar, c, x);
    lemma_product(e, ar, s, y);
    lemma_difference(e, ar, a, b);
    let (t, u, v) = (e.of(difference_of(ar, a, b)), e.of(c) * e.of(x), e.of(s) * e.of(y));
    lemma_combine3(
        e,
        t - (u - v),
        1,
        t - (e.of(a) - e.of(b)),
        1,
        e.of(a) - u,
        -1,
        e.of(b) - v,
    );
}

proof fn lemma_turned_second<A: Arithmetic>(e: Exact, ar: A, c: Real, s: Real, x: Real, y: Real)
    requires
        e.computes(ar),
    ensures
        e.same(
            e.of(turned_second(ar, c, s, x, y)),
            e.of(s) * e.of(x) + e.of(c) * e.of(y),
        ),
{
    let (a, b) = (product_of(ar, s, x), product_of(ar, c, y));
    lemma_product(e, ar, s, x);
    lemma_product(e, ar, c, y);
    lemma_sum(e, ar, a, b);
    let (t, u, v) = (e.of(sum_of(ar, a, b)), e.of(s) * e.of(x), e.of(c) * e.of(y));
    lemma_combine3(
        e,
        t - (u + v),
        1,
        t - (e.of(a) + e.of(b)),
        1,
        e.of(a) - u,
        1,
        e.of(b) - v,
    );
}

/// `x y z`, computed from the left.
proof fn lemma_triple<A: Arithmetic>(e: Exact, ar: A, x: Real, y: Real, z: Real)
    requires
        e.computes(ar),
    ensures
        e.same(
            e.of(product_of(ar, product_of(ar, x, y), z)),
            e.of(x) * e.of(y) * e.of(z),
        ),
{
    let p = product_of(ar, x, y);
    lemma_product(e, ar, x, y);
    lemma_product(e, ar, p, z);
    let (t, u, v, w) = (e.of(product_of(ar, p, z)), e.of(p), e.of(x) * e.of(y), e.of(z));
    assert(t - v * w == 1 * (t - u * w) + w * (u - v)) by (nonlinear_arith);
    lemma_combine(e, t - v * w, 1, t - u * w, w, u - v);
}

proof fn lemma_cross<A: Arithmetic>(e: Exact, ar: A, c: Real, s: Real, apq: Real)
    requires
        e.computes(ar),
    ensures
        e.same(
            e.of(
                product_of(
                    ar,
                    product_of(ar, product_of(ar, Real { bits: TWO }, s), c),
                    apq,
                ),
            ),
            2 * (e.of(s) * e.of(c)) * e.of(apq),
        ),
{
    let two = Real { bits: TWO };
    let inside = product_of(ar, product_of(ar, two, s), c);
    lemma_constants(e, ar);
    lemma_triple(e, ar, two, s, c);
    lemma_product(e, ar, inside, apq);
    let (t, u, d, x, y, z) = (
        e.of(product_of(ar, inside, apq)),
        e.of(inside),
        e.of(two),
        e.of(s),
        e.of(c),
        e.of(apq),
    );
    assert(t - 2 * (x * y) * z == 1 * (t - u * z) + z * (u - d * x * y) + (x * y * z) * (d - 2))
        by (nonlinear_arith);
    lemma_combine3(
        e,
        t - 2 * (x * y) * z,
        1,
        t - u * z,
        z,
        u - d * x * y,
        x * y * z,
        d - 2,
    );
}

proof fn lemma_turned_pp<A: Arithmetic>(
    e: Exact,
    ar: A,
    c: Real,
    s: Real,
    app: Real,
    apq: Real,
    aqq: Real,
)
    requires
        e.computes(ar),
    ensures
        e.same(
            e.of(turned_pp(ar, c, s, app, apq, aqq)),
            e.of(c) * e.of(c) * e.of(app) - 2 * (e.of(s) * e.of(c)) * e.of(apq) + e.of(s) * e.of(s)
                * e.of(aqq),
        ),
{
    let cross = product_of(ar, product_of(ar, product_of(ar, Real { bits: TWO }, s), c), apq);
    let first = product_of(ar, product_of(ar, c, c), app);
    let last = product_of(ar, product_of(ar, s, s), aqq);
    let mid = difference_of(ar, first, cross);
    lemma_cross(e, ar, c, s, apq);
    lemma_triple(e, ar, c, c, app);
    lemma_triple(e, ar, s, s, aqq);
    lemma_difference(e, ar, first, cross);
    lemma_sum(e, ar, mid, last);
    let t = e.of(sum_of(ar, mid, last));
    let (u, v, w) = (
        e.of(c) * e.of(c) * e.of(app),
        2 * (e.of(s) * e.of(c)) * e.of(apq),
        e.of(s) * e.of(s) * e.of(aqq),
    );
    lemma_combine3(
        e,
        e.of(mid) - (u - v),
        1,
        e.of(mid) - (e.of(first) - e.of(cross)),
        1,
        e.of(first) - u,
        -1,
        e.of(cross) - v,
    );
    lemma_combine3(
        e,
        t - (u - v + w),
        1,
        t - (e.of(mid) + e.of(last)),
        1,
        e.of(mid) - (u - v),
        1,
        e.of(last) - w,
    );
}

proof fn lemma_turned_qq<A: Arithmetic>(
    e: Exact,
    ar: A,
    c: Real,
    s: Real,
    app: Real,
    apq: Real,
    aqq: Real,
)
    requires
        e.computes(ar),
    ensures
        e.same(
            e.of(turned_qq(ar, c, s, app, apq, aqq)),
            e.of(s) * e.of(s) * e.of(app) + 2 * (e.of(s) * e.of(c)) * e.of(apq) + e.of(c) * e.of(c)
                * e.of(aqq),
        ),
{
    let cross = product_of(ar, product_of(ar, product_of(ar, Real { bits: TWO }, s), c), apq);
    let first = product_of(ar, product_of(ar, s, s), app);
    let last = product_of(ar, product_of(ar, c, c), aqq);
    let mid = sum_of(ar, first, cross);
    lemma_cross(e, ar, c, s, apq);
    lemma_triple(e, ar, s, s, app);
    lemma_triple(e, ar, c, c, aqq);
    lemma_sum(e, ar, first, cross);
    lemma_sum(e, ar, mid, last);
    let t = e.of(sum_of(ar, mid, last));
    let (u, v, w) = (
        e.of(s) * e.of(s) * e.of(app),
        2 * (e.of(s) * e.of(c)) * e.of(apq),
        e.of(c) * e.of(c) * e.of(aqq),
    );
    lemma_combine3(
        e,
        e.of(mid) - (u + v),
        1,
        e.of(mid) - (e.of(first) + e.of(cross)),
        1,
        e.of(first) - u,
        1,
        e.of(cross) - v,
    );
    lemma_combine3(
        e,
        t - (u + v + w),
        1,
        t - (e.of(mid) + e.of(last)),
        1,
        e.of(mid) - (u + v),
        1,
        e.of(last) - w,
    );
}

/// Where the angle is exact, the entry at the pivot vanishes.
proof fn lemma_pivot_vanishes<A: Arithmetic>(e: Exact, ar: A, a: Grid, p: int, q: int)
    requires
        e.computes(ar),
        turns_exactly(e, ar, a, p, q),
    ensures
        ({
            let angle = rotation_angle(ar, a, p, q);
            let c = e.of(cosine_of(ar, angle));
            let s = e.of(sine_of(ar, angle));
            &&& e.same(c * c + s * s, 1)
            &&& e.nil(
                (c * c - s * s) * cell(e, a, p, q) + (s * c) * (cell(e, a, p, p) - cell(
                    e,
                    a,
                    q,
                    q,
                )),
            )
        }),
{
    let angle = rotation_angle(ar, a, p, q);
    let c = e.of(cosine_of(ar, angle));
    let s = e.of(sine_of(ar, angle));
    let two = Real { bits: TWO };
    let y = product_of(ar, two, a.at(p, q));
    let x = difference_of(ar, a.at(q, q), a.at(p, p));
    lemma_constants(e, ar);
    lemma_product(e, ar, two, a.at(p, q));
    lemma_difference(e, ar, a.at(q, q), a.at(p, p));
    let (b, d, f) = (cell(e, a, p, q), cell(e, a, p, p), cell(e, a, q, q));
    let goal = (c * c - s * s) * b + (s * c) * (d - f);
    let (dd, ss, t) = (c * c - s * s, s * c, e.of(two));
    let (vy, vx) = (e.of(y), e.of(x));
    // dd vy = 2 ss vx, with vy = 2 b and vx = f - d
    lemma_nil_zero(e);
    lemma_swap_factors(e, t, 2, b, b);
    lemma_same_trans(e, vy, t * b, 2 * b);
    lemma_swap_factors(e, dd, dd, vy, 2 * b);
    lemma_swap_factors(e, 2 * ss, 2 * ss, vx, f - d);
    assert(dd * (2 * b) == 2 * (dd * b)) by (nonlinear_arith);
    assert((2 * ss) * (f - d) == -(2 * (ss * (d - f)))) by (nonlinear_arith);
    lemma_combine3(
        e,
        2 * goal,
        1,
        dd * vy - 2 * ss * vx,
        -1,
        dd * vy - dd * (2 * b),
        1,
        (2 * ss) * vx - (2 * ss) * (f - d),
    );
    let h = e.of(Real { bits: HALF });
    assert(2 * h == 2 * h);
    assert(e.unit(2));
    lemma_cancel(e, 2, goal);
}

proof fn lemma_turned_cells<A: Arithmetic>(e: Exact, ar: A, a: Grid, p: int, q: int, k: int)
    requires
        e.computes(ar),
        a.rows == a.cols,
        0 <= p < a.rows,
        0 <= q < a.rows,
        p != q,
        0 <= k < a.rows,
    ensures
        ({
            let b = turned(ar, a, p, q);
            let angle = rotation_angle(ar, a, p, q);
            let c = e.of(cosine_of(ar, angle));
            let s = e.of(sine_of(ar, angle));
            &&& b.rows == a.rows
            &&& b.cols == a.cols
            &&& k != p && k != q ==> {
                &&& e.same(cell(e, b, k, p), c * cell(e, a, k, p) - s * cell(e, a, k, q))
                &&& e.same(cell(e, b, k, q), s * cell(e, a, k, p) + c * cell(e, a, k, q))
                &&& b.at(p, k) == b.at(k, p)
                &&& b.at(q, k) == b.at(k, q)
            }
            &&& e.same(
                cell(e, b, p, p),
                c * c * cell(e, a, p, p) - 2 * (s * c) * cell(e, a, p, q) + s * s * cell(
                    e,
                    a,
                    q,
                    q,
                ),
            )
            &&& e.same(
                cell(e, b, q, q),
                s * s * cell(e, a, p, p) + 2 * (s * c) * cell(e, a, p, q) + c * c * cell(
                    e,
                    a,
                    q,
                    q,
                ),
            )
            &&& e.nil(cell(e, b, p, q))
            &&& b.at(q, p) == b.at(p, q)
        }),
{
    let b = turned(ar, a, p, q);
    let angle = rotation_angle(ar, a, p, q);
    let c = cosine_of(ar, angle);
    let s = sine_of(ar, angle);
    lemma_constants(e, ar);
    lemma_turned_pp(e, ar, c, s, a.at(p, p), a.at(p, q), a.at(q, q));
    lemma_turned_qq(e, ar, c, s, a.at(p, p), a.at(p, q), a.at(q, q));
    if k != p && k != q {
        lemma_turned_first(e, ar, c, s, a.at(k, p), a.at(k, q));
        lemma_turned_second(e, ar, c, s, a.at(k, p), a.at(k, q));
        assert(b.at(k, p) == turned_first(ar, c, s, a.at(k, p), a.at(k, q)));
        assert(b.at(k, q) == turned_second(ar, c, s, a.at(k, p), a.at(k, q)));
    }
    assert(b.at(p, q) == (Real { bits: ZERO }));
}

proof fn lemma_turned_symmetric<A: Arithmetic>(ar: A, a: Grid, p: int, q: int)
    requires
        symmetric(a),
    ensures
        symmetric(turned(ar, a, p, q)),
{
    let b = turned(ar, a, p, q);
    assert forall|i: int, j: int| 0 <= i < b.rows && 0 <= j < b.rows implies #[trigger] b.at(i, j)
        == b.at(j, i) by {
        assert(a.at(i, j) == a.at(j, i));
    }
}

/// A rotation in the plane of `p` and `q` is a similarity: where `A V` was `V B`, it is so
/// again for the rotated matrix and the rotated vectors.
pub proof fn rotations_are_similarities<A: Arithmetic>(
    e: Exact,
    ar: A,
    a: Grid,
    b: Grid,
    v: Grid,
    p: int,
    q: int,
    i: int,
    j: int,
)
    requires
        e.computes(ar),
        symmetric(b),
        a.rows == b.rows,
        a.cols == b.rows,
        v.rows == b.rows,
        v.cols == b.rows,
        0 <= p < b.rows,
        0 <= q < b.rows,
        p != q,
        0 <= i < b.rows,
        0 <= j < b.rows,
        turns_exactly(e, ar, b, p, q),
        forall|k: int|
            0 <= k < b.rows ==> e.same(
                #[trigger] crossed(e, a, v, i, k),
                crossed(e, v, b, i, k),
            ),
    ensures
        ({
            let angle = rotation_angle(ar, b, p, q);
            let w = turned_vectors(ar, v, cosine_of(ar, angle), sine_of(ar, angle), p, q);
            e.same(crossed(e, a, w, i, j), crossed(e, w, turned(ar, b, p, q), i, j))
        }),
{
    let n = b.rows as int;
    let angle = rotation_angle(ar, b, p, q);
    let (cr, sr) = (cosine_of(ar, angle), sine_of(ar, angle));
    let (c, s) = (e.of(cr), e.of(sr));
    let w = turned_vectors(ar, v, cr, sr, p, q);
    let d = turned(ar, b, p, q);
    lemma_pivot_vanishes(e, ar, b, p, q);
    lemma_turned_first(e, ar, cr, sr, v.at(i, p), v.at(i, q));
    lemma_turned_second(e, ar, cr, sr, v.at(i, p), v.at(i, q));
    assert(w.at(i, p) == turned_first(ar, cr, sr, v.at(i, p), v.at(i, q)));
    assert(w.at(i, q) == turned_second(ar, cr, sr, v.at(i, p), v.at(i, q)));
    let (vp, vq) = (cell(e, v, i, p), cell(e, v, i, q));
    let (wp, wq) = (cell(e, w, i, p), cell(e, w, i, q));
    lemma_turned_cells(e, ar, b, p, q, j);
    assert(e.same(crossed(e, a, v, i, j), crossed(e, v, b, i, j)));
    assert(e.same(crossed(e, a, v, i, p), crossed(e, v, b, i, p)));
    assert(e.same(crossed(e, a, v, i, q), crossed(e, v, b, i, q)));
    let right = |l: int| cell(e, w, i, l) * cell(e, d, l, j);
    if j != p && j != q {
        let left = |l: int| cell(e, a, i, l) * cell(e, w, l, j);
        let same_left = |l: int| cell(e, a, i, l) * cell(e, v, l, j);
        assert forall|l: int| 0 <= l < n implies #[trigger] left(l) == same_left(l) by {
            assert(w.at(l, j) == v.at(l, j));
        }
        lemma_total_equal(left, same_left, n);
        let plain = |l: int| cell(e, v, i, l) * cell(e, b, l, j);
        assert forall|l: int| 0 <= l < n && l != p && l != q implies e.same(
            #[trigger] right(l),
            plain(l),
        ) by {
            assert(w.at(i, l) == v.at(i, l));
            assert(d.at(l, j) == b.at(l, j));
            lemma_nil_zero(e);
        }
        lemma_total_two(e, right, plain, n, p, q);
        let (bp, bq) = (cell(e, b, j, p), cell(e, b, j, q));
        let (dp, dq) = (cell(e, d, j, p), cell(e, d, j, q));
        assert(b.at(p, j) == b.at(j, p) && b.at(q, j) == b.at(j, q));
        lemma_mix(e, c, s, vp, vq, wp, wq, bp, bq, dp, dq);
        let (x, y, z) = (total_of(left, n), total_of(plain, n), total_of(right, n));
        let gap = (wp * dp - vp * bp) + (wq * dq - vq * bq);
        assert(right(p) - plain(p) == wp * dp - vp * bp);
        assert(right(q) - plain(q) == wq * dq - vq * bq);
        lemma_combine3(e, x - z, 1, x - y, -1, z - (y + gap), -1, gap);
    } else {
        let left = |l: int| cell(e, a, i, l) * cell(e, w, l, j);
        let lp = |l: int| cell(e, a, i, l) * cell(e, v, l, p);
        let lq = |l: int| cell(e, a, i, l) * cell(e, v, l, q);
        let pp = |l: int| cell(e, v, i, l) * cell(e, b, l, p);
        let pq = |l: int| cell(e, v, i, l) * cell(e, b, l, q);
        let (f, g) = if j == p {
            (c, -s)
        } else {
            (s, c)
        };
        let mixed = |l: int| f * lp(l) + g * lq(l);
        assert forall|l: int| 0 <= l < n implies e.same(#[trigger] left(l), mixed(l)) by {
            lemma_turned_first(e, ar, cr, sr, v.at(l, p), v.at(l, q));
            lemma_turned_second(e, ar, cr, sr, v.at(l, p), v.at(l, q));
            let (t, x, y, z) = (
                cell(e, a, i, l),
                cell(e, w, l, j),
                cell(e, v, l, p),
                cell(e, v, l, q),
            );
            assert((-s) * z == -(s * z)) by (nonlinear_arith);
            assert(e.same(x, f * y + g * z));
            lemma_nil_times(e, t, x - (f * y + g * z));
            assert(t * (x - (f * y + g * z)) == t * x - (f * (t * y) + g * (t * z)))
                by (nonlinear_arith);
        }
        lemma_total_same(e, left, mixed, n);
        lemma_total_linear(lp, lq, f, g, n);
        let plain = |l: int| f * pp(l) + g * pq(l);
        assert forall|l: int| 0 <= l < n && l != p && l != q implies e.same(
            #[trigger] right(l),
            plain(l),
        ) by {
            lemma_turned_cells(e, ar, b, p, q, l);
            assert(w.at(i, l) == v.at(i, l));
            let (t, x, y, z) = (
                cell(e, v, i, l),
                cell(e, d, l, j),
                cell(e, b, l, p),
                cell(e, b, l, q),
            );
            assert((-s) * z == -(s * z)) by (nonlinear_arith);
            assert(e.same(x, f * y + g * z));
            lemma_nil_times(e, t, x - (f * y + g * z));
            assert(t * (x - (f * y + g * z)) == t * x - (f * (t * y) + g * (t * z)))
                by (nonlinear_arith);
        }
        lemma_total_two(e, right, plain, n, p, q);
        lemma_total_linear(pp, pq, f, g, n);
        let (bpp, bpq, bqq) = (cell(e, b, p, p), cell(e, b, p, q), cell(e, b, q, q));
        assert(b.at(q, p) == b.at(p, q));
        let (dpp, dpq, dqq) = (cell(e, d, p, p), cell(e, d, p, q), cell(e, d, q, q));
        assert(d.at(q, p) == d.at(p, q));
        let kp = f * (vp * bpp) + g * (vp * bpq);
        let kq = f * (vq * bpq) + g * (vq * bqq);
        let gap = if j == p {
            (wp * dpp - kp) + (wq * dpq - kq)
        } else {
            (wp * dpq - kp) + (wq * dqq - kq)
        };
        lemma_mix_pivot(e, c, s, vp, vq, wp, wq, bpp, bpq, bqq, dpp, dpq, dqq);
        assert(e.nil(gap));
        assert(right(p) - plain(p) + (right(q) - plain(q)) == gap);
        let (x, z) = (total_of(left, n), total_of(right, n));
        let (ap, aq, vbp, vbq) = (
            total_of(lp, n),
            total_of(lq, n),
            total_of(pp, n),
            total_of(pq, n),
        );
        let y = f * vbp + g * vbq;
        let u = f * ap + g * aq;
        assert(u - y == f * (ap - vbp) + g * (aq - vbq)) by (nonlinear_arith)
            requires
                y == f * vbp + g * vbq,
                u == f * ap + g * aq,
        ;
        lemma_combine(e, u - y, f, ap - vbp, g, aq - vbq);
        lemma_combine4(e, x - z, 1, x - u, 1, u - y, -1, z - (y + gap), -1, gap);
    }
}

pub(crate) proof fn lemma_foil(a: int, b: int, c: int, d: int)
    ensures
        (a + b) * (c + d) == a * c + a * d + b * c + b * d,
{
    assert((a + b) * (c + d) == a * c + a * d + b * c + b * d) by (nonlinear_arith);
}

pub(crate) proof fn lemma_regroup(a: int, b: int, c: int, d: int)
    ensures
        (a * b) * (c * d) == (a * c) * (b * d),
{
    assert((a * b) * (c * d) == (a * c) * (b * d)) by (nonlinear_arith);
}

pub(crate) proof fn lemma_spread(k: int, a: int, b: int)
    ensures
        k * (a + b) == k * a + k * b,
        k * (a - b) == k * a - k * b,
        (a + b) * k == a * k + b * k,
        (a - b) * k == a * k - b * k,
        k * (-a) == -(k * a),
        (-k) * a == -(k * a),
{
    assert(k * (a + b) == k * a + k * b) by (nonlinear_arith);
    assert(k * (a - b) == k * a - k * b) by (nonlinear_arith);
    assert((a + b) * k == a * k + b * k) by (nonlinear_arith);
    assert((a - b) * k == a * k - b * k) by (nonlinear_arith);
    assert(k * (-a) == -(k * a)) by (nonlinear_arith);
    assert((-k) * a == -(k * a)) by (nonlinear_arith);
}

pub(crate) proof fn lemma_group(x: int, y: int, z: int)
    ensures
        x * (y * z) == (x * y) * z,
        x * (y * z) == y * (x * z),
        (y * z) * x == (x * y) * z,
        x * y == y * x,
        x * (2 * y) == 2 * (x * y),
        (2 * y) * z == 2 * (y * z),
{
    assert(x * (y * z) == (x * y) * z) by (nonlinear_arith);
    assert(x * (y * z) == y * (x * z)) by (nonlinear_arith);
    assert((y * z) * x == (x * y) * z) by (nonlinear_arith);
    assert(x * y == y * x) by (nonlinear_arith);
    assert(x * (2 * y) == 2 * (x * y)) by (nonlinear_arith);
    assert((2 * y) * z == 2 * (y * z)) by (nonlinear_arith);
}

/// `k` times each of the forms that a rotation makes of a symmetric matrix of two rows.
proof fn lemma_form_times(k: int, cc: int, ss: int, sc: int, a: int, b: int, d: int)
    ensures
        k * (cc * a - 2 * sc * b + ss * d) == (k * cc) * a - 2 * ((k * sc) * b) + (k * ss) * d,
        k * (ss * a + 2 * sc * b + cc * d) == (k * ss) * a + 2 * ((k * sc) * b) + (k * cc) * d,
        k * ((cc - ss) * b + sc * (a - d)) == (k * cc) * b - (k * ss) * b + (k * sc) * a - (k * sc)
            * d,
{
    lemma_spread(k, cc * a - 2 * sc * b, ss * d);
    lemma_spread(k, cc * a, 2 * sc * b);
    lemma_spread(k, ss * a + 2 * sc * b, cc * d);
    lemma_spread(k, ss * a, 2 * sc * b);
    lemma_group(k, cc, a);
    lemma_group(k, ss, d);
    lemma_group(k, ss, a);
    lemma_group(k, cc, d);
    lemma_group(k, sc, b);
    lemma_group(k, sc * b, b);
    lemma_spread(b, cc, ss);
    lemma_spread(sc, a, d);
    lemma_spread(k, cc * b - ss * b, sc * a - sc * d);
    lemma_spread(k, cc * b, ss * b);
    lemma_spread(k, sc * a, sc * d);
    lemma_group(k, cc, b);
    lemma_group(k, ss, b);
    lemma_group(k, sc, a);
    lemma_group(k, sc, d);
}

/// `(cc + ss) (x a + y b)`.
proof fn lemma_one_times(cc: int, ss: int, x: int, y: int, a: int, b: int)
    ensures
        (cc + ss) * (x * a + y * b) == (x * cc) * a + (x * ss) * a + (y * cc) * b + (y * ss) * b,
        (cc + ss) * (x * a - y * b) == (x * cc) * a + (x * ss) * a - (y * cc) * b - (y * ss) * b,
{
    lemma_spread(cc + ss, x * a, y * b);
    lemma_spread(x * a, cc, ss);
    lemma_spread(y * b, cc, ss);
    lemma_group(cc, x, a);
    lemma_group(ss, x, a);
    lemma_group(cc, y, b);
    lemma_group(ss, y, b);
    lemma_group(x, cc, a);
    lemma_group(x, ss, a);
    lemma_group(y, cc, b);
    lemma_group(y, ss, b);
}

/// Rows of a rotation times the rotated form of a symmetric matrix of two rows.
proof fn lemma_turned_forms(c: int, s: int, a: int, b: int, d: int)
    ensures
        ({
            let one = c * c + s * s;
            let x = (c * c - s * s) * b + (s * c) * (a - d);
            let dpp = c * c * a - 2 * (s * c) * b + s * s * d;
            let dqq = s * s * a + 2 * (s * c) * b + c * c * d;
            &&& c * dpp + s * x == one * (c * a - s * b)
            &&& c * x - s * dpp == one * (c * b - s * d)
            &&& c * x + s * dqq == one * (s * a + c * b)
            &&& c * dqq - s * x == one * (s * b + c * d)
        }),
{
    let (cc, ss, sc) = (c * c, s * s, s * c);
    lemma_form_times(c, cc, ss, sc, a, b, d);
    lemma_form_times(s, cc, ss, sc, a, b, d);
    lemma_one_times(cc, ss, c, s, a, b);
    lemma_one_times(cc, ss, c, s, b, d);
    lemma_one_times(cc, ss, s, c, a, b);
    lemma_one_times(cc, ss, s, c, b, d);
    lemma_group(s, s, c);
    lemma_group(c, s, c);
    lemma_group(ss, c, c);
    assert(s * sc == c * ss);
    assert(c * sc == s * cc);
}

proof fn lemma_mix(
    e: Exact,
    c: int,
    s: int,
    vp: int,
    vq: int,
    wp: int,
    wq: int,
    bp: int,
    bq: int,
    dp: int,
    dq: int,
)
    requires
        e.same(c * c + s * s, 1),
        e.same(wp, c * vp - s * vq),
        e.same(wq, s * vp + c * vq),
        e.same(dp, c * bp - s * bq),
        e.same(dq, s * bp + c * bq),
    ensures
        e.nil((wp * dp - vp * bp) + (wq * dq - vq * bq)),
{
    let (wp1, wq1) = (c * vp - s * vq, s * vp + c * vq);
    let (dp1, dq1) = (c * bp - s * bq, s * bp + c * bq);
    lemma_foil(c * vp, -(s * vq), c * bp, -(s * bq));
    lemma_foil(s * vp, c * vq, s * bp, c * bq);
    lemma_regroup(c, vp, c, bp);
    lemma_regroup(c, vp, s, bq);
    lemma_regroup(s, vq, c, bp);
    lemma_regroup(s, vq, s, bq);
    lemma_regroup(s, vp, s, bp);
    lemma_regroup(s, vp, c, bq);
    lemma_regroup(c, vq, s, bp);
    lemma_regroup(c, vq, c, bq);
    assert(s * c == c * s) by (nonlinear_arith);
    lemma_foil(c * c, s * s, vp * bp, vq * bq);
    assert((c * vp) * (-(s * bq)) == -((c * vp) * (s * bq))) by (nonlinear_arith);
    assert((-(s * vq)) * (c * bp) == -((s * vq) * (c * bp))) by (nonlinear_arith);
    assert((-(s * vq)) * (-(s * bq)) == (s * vq) * (s * bq)) by (nonlinear_arith);
    assert(wp1 * dp1 + wq1 * dq1 == (c * c + s * s) * (vp * bp + vq * bq));
    let one = c * c + s * s;
    let t = vp * bp + vq * bq;
    let first = wp * dp - wp1 * dp1;
    assert(first == dp * (wp - wp1) + wp1 * (dp - dp1)) by (nonlinear_arith)
        requires
            first == wp * dp - wp1 * dp1,
    ;
    lemma_combine(e, first, dp, wp - wp1, wp1, dp - dp1);
    let second = wq * dq - wq1 * dq1;
    assert(second == dq * (wq - wq1) + wq1 * (dq - dq1)) by (nonlinear_arith)
        requires
            second == wq * dq - wq1 * dq1,
    ;
    lemma_combine(e, second, dq, wq - wq1, wq1, dq - dq1);
    let goal = (wp * dp - vp * bp) + (wq * dq - vq * bq);
    assert(t * (one - 1) == one * t - t) by (nonlinear_arith);
    lemma_combine3(e, goal, 1, first, 1, second, t, one - 1);
}

/// `(c u - s v) d + (s u + c v) f`, sorted by `u` and `v`.
proof fn lemma_form_mixed(c: int, s: int, u: int, v: int, d: int, f: int)
    ensures
        (c * u - s * v) * d + (s * u + c * v) * f == u * (c * d + s * f) + v * (c * f - s * d),
{
    lemma_spread(d, c * u, s * v);
    lemma_spread(f, s * u, c * v);
    lemma_spread(u, c * d, s * f);
    lemma_spread(v, c * f, s * d);
    lemma_group(d, c, u);
    lemma_group(u, c, d);
    lemma_group(d, s, v);
    lemma_group(v, s, d);
    lemma_group(f, s, u);
    lemma_group(u, s, f);
    lemma_group(f, c, v);
    lemma_group(v, c, f);
    lemma_group(c, d, u);
    lemma_group(s, d, v);
    lemma_group(s, f, u);
    lemma_group(c, f, v);
}

proof fn lemma_mix_pivot(
    e: Exact,
    c: int,
    s: int,
    vp: int,
    vq: int,
    wp: int,
    wq: int,
    bpp: int,
    bpq: int,
    bqq: int,
    dpp: int,
    dpq: int,
    dqq: int,
)
    requires
        e.same(c * c + s * s, 1),
        e.nil((c * c - s * s) * bpq + (s * c) * (bpp - bqq)),
        e.same(wp, c * vp - s * vq),
        e.same(wq, s * vp + c * vq),
        e.same(dpp, c * c * bpp - 2 * (s * c) * bpq + s * s * bqq),
        e.same(dqq, s * s * bpp + 2 * (s * c) * bpq + c * c * bqq),
        e.nil(dpq),
    ensures
        e.nil(
            (wp * dpp - (c * (vp * bpp) + (-s) * (vp * bpq))) + (wq * dpq - (c * (vq * bpq) + (-s)
                * (vq * bqq))),
        ),
        e.nil(
            (wp * dpq - (s * (vp * bpp) + c * (vp * bpq))) + (wq * dqq - (s * (vq * bpq) + c * (vq
                * bqq))),
        ),
{
    let (wp1, wq1) = (c * vp - s * vq, s * vp + c * vq);
    let x = (c * c - s * s) * bpq + (s * c) * (bpp - bqq);
    let dpp1 = c * c * bpp - 2 * (s * c) * bpq + s * s * bqq;
    let dqq1 = s * s * bpp + 2 * (s * c) * bpq + c * c * bqq;
    let one = c * c + s * s;
    let kp = (c * (vp * bpp) + (-s) * (vp * bpq)) + (c * (vq * bpq) + (-s) * (vq * bqq));
    let kq = (s * (vp * bpp) + c * (vp * bpq)) + (s * (vq * bpq) + c * (vq * bqq));
    lemma_turned_forms(c, s, bpp, bpq, bqq);
    let (m1, m2, n1, n2) = (
        c * bpp - s * bpq,
        c * bpq - s * bqq,
        s * bpp + c * bpq,
        s * bpq + c * bqq,
    );
    lemma_form_mixed(c, s, vp, vq, dpp1, x);
    lemma_form_mixed(c, s, vp, vq, x, dqq1);
    lemma_spread(vp, c * bpp, s * bpq);
    lemma_spread(vq, c * bpq, s * bqq);
    lemma_spread(vp, s * bpp, c * bpq);
    lemma_spread(vq, s * bpq, c * bqq);
    lemma_group(vp, c, bpp);
    lemma_group(vp, s, bpq);
    lemma_group(vq, c, bpq);
    lemma_group(vq, s, bqq);
    lemma_group(vp, s, bpp);
    lemma_group(vp, c, bpq);
    lemma_group(vq, s, bpq);
    lemma_group(vq, c, bqq);
    lemma_spread(s, vp * bpq, 0);
    lemma_spread(s, vq * bqq, 0);
    assert(kp == vp * m1 + vq * m2);
    assert(kq == vp * n1 + vq * n2);
    lemma_group(vp, one, m1);
    lemma_group(vq, one, m2);
    lemma_group(vp, one, n1);
    lemma_group(vq, one, n2);
    lemma_spread(one, vp * m1, vq * m2);
    lemma_spread(one, vp * n1, vq * n2);
    assert(wp1 * dpp1 + wq1 * x == one * kp);
    assert(wp1 * x + wq1 * dqq1 == one * kq);
    lemma_swap_factors(e, wp, wp1, dpp, dpp1);
    lemma_swap_factors(e, wq, wq1, dqq, dqq1);
    lemma_nil_times(e, wq, dpq);
    lemma_nil_times(e, wp, dpq);
    lemma_nil_times(e, wq1, x);
    lemma_nil_times(e, wp1, x);
    lemma_nil_times(e, kp, one - 1);
    lemma_nil_times(e, kq, one - 1);
    assert(kp * (one - 1) == one * kp - kp) by (nonlinear_arith);
    assert(kq * (one - 1) == one * kq - kq) by (nonlinear_arith);
    let gp = wp * dpp + wq * dpq - kp;
    lemma_combine4(
        e,
        gp,
        1,
        wp * dpp - wp1 * dpp1,
        1,
        wq * dpq,
        -1,
        wq1 * x,
        1,
        one * kp - kp,
    );
    let gq = wp * dpq + wq * dqq - kq;
    lemma_combine4(
        e,
        gq,
        1,
        wq * dqq - wq1 * dqq1,
        1,
        wp * dpq,
        -1,
        wp1 * x,
        1,
        one * kq - kq,
    );
}

pub(crate) proof fn lemma_swap_factors(e: Exact, x: int, y: int, u: int, v: int)
    requires
        e.same(x, y),
        e.same(u, v),
    ensures
        e.same(x * u, y * v),
{
    assert(x * u - y * v == u * (x - y) + y * (u - v)) by (nonlinear_arith);
    lemma_combine(e, x * u - y * v, u, x - y, y, u - v);
}

/// Rotating two columns of orthonormal vectors leaves them orthonormal.
pub proof fn rotations_keep_vectors_orthonormal<A: Arithmetic>(
    e: Exact,
    ar: A,
    v: Grid,
    c: Real,
    s: Real,
    p: int,
    q: int,
    i: int,
    j: int,
)
    requires
        e.computes(ar),
        0 <= p < v.cols,
        0 <= q < v.cols,
        p != q,
        0 <= i < v.cols,
        0 <= j < v.cols,
        e.same(e.of(c) * e.of(c) + e.of(s) * e.of(s), 1),
        forall|k: int, l: int|
            0 <= k < v.cols && 0 <= l < v.cols ==> e.same(
                #[trigger] columns_crossed(e, v, k, l),
                delta(k, l),
            ),
    ensures
        e.same(columns_crossed(e, turned_vectors(ar, v, c, s, p, q), i, j), delta(i, j)),
{
    let w = turned_vectors(ar, v, c, s, p, q);
    let n = v.rows as int;
    let (x, y) = (e.of(c), e.of(s));
    // Column i of w is f1 times column a1 plus g1 times column b1 of v.
    let (a1, f1, b1, g1) = if i == p {
        (p, x, q, -y)
    } else if i == q {
        (p, y, q, x)
    } else {
        (i, 1, i, 0)
    };
    let (a2, f2, b2, g2) = if j == p {
        (p, x, q, -y)
    } else if j == q {
        (p, y, q, x)
    } else {
        (j, 1, j, 0)
    };
    let left = |l: int| cell(e, w, l, i) * cell(e, w, l, j);
    let aa = |l: int| cell(e, v, l, a1) * cell(e, v, l, a2);
    let ab = |l: int| cell(e, v, l, a1) * cell(e, v, l, b2);
    let ba = |l: int| cell(e, v, l, b1) * cell(e, v, l, a2);
    let bb = |l: int| cell(e, v, l, b1) * cell(e, v, l, b2);
    let first = |l: int| (f1 * f2) * aa(l) + (f1 * g2) * ab(l);
    let second = |l: int| (g1 * f2) * ba(l) + (g1 * g2) * bb(l);
    let both = |l: int| 1 * first(l) + 1 * second(l);
    assert forall|l: int| 0 <= l < n implies e.same(#[trigger] left(l), both(l)) by {
        lemma_turned_first(e, ar, c, s, v.at(l, p), v.at(l, q));
        lemma_turned_second(e, ar, c, s, v.at(l, p), v.at(l, q));
        let (vp, vq) = (cell(e, v, l, p), cell(e, v, l, q));
        assert((-y) * vq == -(y * vq)) by (nonlinear_arith);
        lemma_nil_zero(e);
        let (wi, wj) = (cell(e, w, l, i), cell(e, w, l, j));
        let (p1, q1, p2, q2) = (
            cell(e, v, l, a1),
            cell(e, v, l, b1),
            cell(e, v, l, a2),
            cell(e, v, l, b2),
        );
        assert(1 * cell(e, v, l, i) + 0 * cell(e, v, l, i) == cell(e, v, l, i))
            by (nonlinear_arith);
        assert(1 * cell(e, v, l, j) + 0 * cell(e, v, l, j) == cell(e, v, l, j))
            by (nonlinear_arith);
        assert(e.same(wi, f1 * p1 + g1 * q1));
        assert(e.same(wj, f2 * p2 + g2 * q2));
        lemma_swap_factors(e, wi, f1 * p1 + g1 * q1, wj, f2 * p2 + g2 * q2);
        lemma_foil(f1 * p1, g1 * q1, f2 * p2, g2 * q2);
        lemma_regroup(f1, p1, f2, p2);
        lemma_regroup(f1, p1, g2, q2);
        lemma_regroup(g1, q1, f2, p2);
        lemma_regroup(g1, q1, g2, q2);
    }
    lemma_total_same(e, left, both, n);
    lemma_total_linear(first, second, 1, 1, n);
    lemma_total_linear(aa, ab, f1 * f2, f1 * g2, n);
    lemma_total_linear(ba, bb, g1 * f2, g1 * g2, n);
    let (taa, tab, tba, tbb) = (
        total_of(aa, n),
        total_of(ab, n),
        total_of(ba, n),
        total_of(bb, n),
    );
    assert(e.same(columns_crossed(e, v, a1, a2), delta(a1, a2)));
    assert(e.same(columns_crossed(e, v, a1, b2), delta(a1, b2)));
    assert(e.same(columns_crossed(e, v, b1, a2), delta(b1, a2)));
    assert(e.same(columns_crossed(e, v, b1, b2), delta(b1, b2)));
    let t = total_of(left, n);
    let sum = (f1 * f2) * taa + (f1 * g2) * tab + ((g1 * f2) * tba + (g1 * g2) * tbb);
    let (daa, dab, dba, dbb) = (delta(a1, a2), delta(a1, b2), delta(b1, a2), delta(b1, b2));
    let goal = (f1 * f2) * daa + (f1 * g2) * dab + ((g1 * f2) * dba + (g1 * g2) * dbb);
    assert(sum - goal == (f1 * f2) * (taa - daa) + (f1 * g2) * (tab - dab) + (g1 * f2) * (tba
        - dba) + (g1 * g2) * (tbb - dbb)) by (nonlinear_arith)
        requires
            sum == (f1 * f2) * taa + (f1 * g2) * tab + ((g1 * f2) * tba + (g1 * g2) * tbb),
            goal == (f1 * f2) * daa + (f1 * g2) * dab + ((g1 * f2) * dba + (g1 * g2) * dbb),
    ;
    lemma_combine4(
        e,
        sum - goal,
        f1 * f2,
        taa - daa,
        f1 * g2,
        tab - dab,
        g1 * f2,
        tba - dba,
        g1 * g2,
        tbb - dbb,
    );
    lemma_nil_sum(e, t - sum, sum - goal);
    assert(e.same(goal, delta(i, j))) by {
        lemma_nil_zero(e);
        if i == p && j == p {
            assert(goal == x * x + y * y) by (nonlinear_arith)
                requires
                    goal == (x * x) * 1 + (x * (-y)) * 0 + (((-y) * x) * 0 + ((-y) * (-y)) * 1),
            ;
        } else if i == q && j == q {
            assert(goal == x * x + y * y) by (nonlinear_arith)
                requires
                    goal == (y * y) * 1 + (y * x) * 0 + ((x * y) * 0 + (x * x) * 1),
            ;
        } else if i == p && j == q {
            assert(goal == 0) by (nonlinear_arith)
                requires
                    goal == (x * y) * 1 + (x * x) * 0 + (((-y) * y) * 0 + ((-y) * x) * 1),
            ;
        } else if i == q && j == p {
            assert(goal == 0) by (nonlinear_arith)
                requires
                    goal == (y * x) * 1 + (y * (-y)) * 0 + ((x * x) * 0 + (x * (-y)) * 1),
            ;
        } else if i == p || i == q {
            assert(goal == 0) by (nonlinear_arith)
                requires
                    goal == (f1 * 1) * 0 + (f1 * 0) * 0 + ((g1 * 1) * 0 + (g1 * 0) * 0),
            ;
        } else if j == p || j == q {
            assert(goal == 0) by (nonlinear_arith)
                requires
                    goal == (1 * f2) * 0 + (1 * g2) * 0 + ((0 * f2) * 0 + (0 * g2) * 0),
            ;
        }
    }
    lemma_same_trans(e, t, goal, delta(i, j));
}

/// The pivot is the largest magnitude above the diagonal, and its place lies there.
proof fn lemma_pivot(a: Grid, i: int, j: int)
    requires
        a.rows == a.cols,
        -1 <= i < a.rows,
        0 <= j <= a.cols,
    ensures
        ({
            let pivot = pivot_upto(a, i, j);
            &&& !pivot.size.nan()
            &&& (Real { bits: ZERO }).below(pivot.size) ==> {
                &&& 0 <= pivot.row < pivot.col < a.cols
                &&& pivot.size == a.at(pivot.row, pivot.col).absolute()
            }
            &&& forall|k: int, l: int|
                0 <= k < l < a.cols && (k < i || (k == i && l < j)) && !(#[trigger] a.at(k, l)).nan()
                    ==> a.at(k, l).absolute().at_most(pivot.size)
        }),
    decreases i + 1, j,
{
    if i >= 0 {
        if j <= i + 1 {
            lemma_pivot(a, i - 1, a.cols as int);
        } else {
            lemma_pivot(a, i, j - 1);
        }
    }
}

/// Whether all rotations on the way turn by exact angles.
pub open spec fn rotates_exactly<A: Arithmetic>(
    e: Exact,
    ar: A,
    a: Grid,
    threshold: Real,
    k: nat,
) -> bool {
    forall|j: nat|
        j < k ==> {
            let b = (#[trigger] rotations(ar, a, threshold, j)).0;
            let pivot = pivot_of(b);
            !pivot.size.at_most(threshold) && (Real { bits: ZERO }).below(pivot.size)
                ==> turns_exactly(e, ar, b, pivot.row, pivot.col)
        }
}

/// However many rotations a symmetric matrix goes through, they make of it a symmetric
/// matrix `B` and orthonormal vectors `V` such that `A V = V B`.
pub proof fn rotations_diagonalize<A: Arithmetic>(
    e: Exact,
    ar: A,
    a: Grid,
    threshold: Real,
    k: nat,
)
    requires
        e.computes(ar),
        symmetric(a),
        rotates_exactly(e, ar, a, threshold, k),
    ensures
        ({
            let (b, v) = rotations(ar, a, threshold, k);
            &&& symmetric(b)
            &&& b.rows == a.rows
            &&& v.rows == a.rows
            &&& v.cols == a.rows
            &&& forall|i: int, j: int|
                0 <= i < a.rows && 0 <= j < a.rows ==> e.same(
                    #[trigger] crossed(e, a, v, i, j),
                    crossed(e, v, b, i, j),
                )
            &&& forall|i: int, j: int|
                0 <= i < a.rows && 0 <= j < a.rows ==> e.same(
                    #[trigger] columns_crossed(e, v, i, j),
                    delta(i, j),
                )
        }),
    decreases k,
{
    let (b, v) = rotations(ar, a, threshold, k);
    let n = a.rows as int;
    if k == 0 {
        lemma_constants(e, ar);
        assert forall|i: int, j: int| 0 <= i < n && 0 <= j < n implies e.same(
            #[trigger] crossed(e, a, v, i, j),
            crossed(e, v, b, i, j),
        ) by {
            lemma_times_unit(e, ar, a, v, i, j);
        }
        assert forall|i: int, j: int| 0 <= i < n && 0 <= j < n implies e.same(
            #[trigger] columns_crossed(e, v, i, j),
            delta(i, j),
        ) by {
            let f = |l: int| cell(e, v, l, i) * cell(e, v, l, j);
            let g = |l: int|
                if l == i {
                    delta(i, j)
                } else {
                    0
                };
            assert forall|l: int| 0 <= l < n implies e.same(#[trigger] f(l), g(l)) by {
                lemma_nil_zero(e);
                lemma_swap_factors(
                    e,
                    cell(e, v, l, i),
                    delta(l, i),
                    cell(e, v, l, j),
                    delta(l, j),
                );
                assert(delta(l, i) * delta(l, j) == g(l));
            }
            lemma_total_same(e, f, g, n);
            lemma_total_single(g, n, i);
        }
    } else {
        assert forall|j: nat| j < (k - 1) as nat implies ({
            let c = (#[trigger] rotations(ar, a, threshold, j)).0;
            let pivot = pivot_of(c);
            !pivot.size.at_most(threshold) && (Real { bits: ZERO }).below(pivot.size)
                ==> turns_exactly(e, ar, c, pivot.row, pivot.col)
        }) by {}
        rotations_diagonalize(e, ar, a, threshold, (k - 1) as nat);
        let (b0, v0) = rotations(ar, a, threshold, (k - 1) as nat);
        let pivot = pivot_of(b0);
        if !(pivot.size.at_most(threshold) || !(Real { bits: ZERO }).below(pivot.size)) {
            lemma_pivot(b0, b0.rows - 1, b0.cols as int);
            let (p, q) = (pivot.row, pivot.col);
            assert(turns_exactly(e, ar, b0, p, q));
            lemma_turned_symmetric(ar, b0, p, q);
            assert forall|i: int, j: int| 0 <= i < n && 0 <= j < n implies e.same(
                #[trigger] crossed(e, a, v, i, j),
                crossed(e, v, b, i, j),
            ) by {
                rotations_are_similarities(e, ar, a, b0, v0, p, q, i, j);
            }
            let angle = rotation_angle(ar, b0, p, q);
            lemma_pivot_vanishes(e, ar, b0, p, q);
            assert forall|i: int, j: int| 0 <= i < n && 0 <= j < n implies e.same(
                #[trigger] columns_crossed(e, v, i, j),
                delta(i, j),
            ) by {
                rotations_keep_vectors_orthonormal(
                    e,
                    ar,
                    v0,
                    cosine_of(ar, angle),
                    sine_of(ar, angle),
                    p,
                    q,
                    i,
                    j,
                );
            }
        }
    }
}

proof fn lemma_times_unit<A: Arithmetic>(e: Exact, ar: A, a: Grid, v: Grid, i: int, j: int)
    requires
        e.computes(ar),
        a.rows == a.cols,
        v.cols == a.rows,
        0 <= i < a.rows,
        0 <= j < a.rows,
        forall|k: int, l: int|
            0 <= k < a.rows && 0 <= l < a.rows ==> #[trigger] v.at(k, l) == (Real {
                bits: if k == l {
                    ONE
                } else {
                    ZERO
                },
            }),
    ensures
        e.same(crossed(e, a, v, i, j), crossed(e, v, a, i, j)),
{
    let n = a.rows as int;
    lemma_constants(e, ar);
    let f = |l: int| cell(e, a, i, l) * cell(e, v, l, j);
    let g = |l: int| cell(e, v, i, l) * cell(e, a, l, j);
    let h = |l: int|
        if l == j {
            cell(e, a, i, j)
        } else {
            0
        };
    let k = |l: int|
        if l == i {
            cell(e, a, i, j)
        } else {
            0
        };
    assert forall|l: int| 0 <= l < n implies e.same(#[trigger] f(l), h(l)) by {
        let (x, y) = (cell(e, a, i, l), cell(e, v, l, j));
        assert(v.at(l, j) == (Real { bits: if l == j { ONE } else { ZERO } }));
        lemma_nil_times(e, x, y - delta(l, j));
        assert(x * (y - 1) == x * y - x) by (nonlinear_arith);
        assert(x * (y - 0) == x * y) by (nonlinear_arith);
    }
    assert forall|l: int| 0 <= l < n implies e.same(#[trigger] g(l), k(l)) by {
        let (x, y) = (cell(e, v, i, l), cell(e, a, l, j));
        assert(v.at(i, l) == (Real { bits: if i == l { ONE } else { ZERO } }));
        lemma_nil_times(e, y, x - delta(l, i));
        assert(y * (x - 1) == x * y - y) by (nonlinear_arith);
        assert(y * (x - 0) == x * y) by (nonlinear_arith);
    }
    lemma_total_same(e, f, h, n);
    lemma_total_same(e, g, k, n);
    lemma_total_single(h, n, j);
    lemma_total_single(k, n, i);
    lemma_same_sym(e, total_of(g, n), total_of(k, n));
    lemma_same_trans(e, total_of(f, n), total_of(h, n), total_of(g, n));
}

/// Whether `x` holds orthonormal vectors with `A X = X C`, where `C` has the values on its
/// diagonal, and nothing beside it that is larger than the threshold.
pub open spec fn diagonalized(
    e: Exact,
    a: Grid,
    values: Seq<Real>,
    x: Grid,
    c: spec_fn(int, int) -> Real,
    threshold: Real,
) -> bool {
    let n = a.rows as int;
    &&& forall|j: int| 0 <= j < n ==> #[trigger] c(j, j) == values[j]
    &&& forall|i: int, j: int|
        0 <= i < n && 0 <= j < n && i != j && !(#[trigger] c(i, j)).nan() ==> c(
            i,
            j,
        ).absolute().at_most(threshold)
    &&& forall|i: int, j: int|
        0 <= i < n && 0 <= j < n ==> e.same(
            #[trigger] crossed(e, a, x, i, j),
            total_of(|k: int| cell(e, x, i, k) * e.of(c(k, j)), n),
        )
    &&& forall|i: int, j: int|
        0 <= i < n && 0 <= j < n ==> e.same(
            #[trigger] columns_crossed(e, x, i, j),
            delta(i, j),
        )
}

/// What a search for eigenvalues finds: orthonormal vectors `X` and a matrix `C` such that
/// `A X = X C`, with the values on the diagonal of `C`, and nothing above it that is larger
/// than the threshold.
pub proof fn eigenvectors_diagonalize<A: Arithmetic>(
    e: Exact,
    ar: A,
    a: Grid,
    tolerance: Real,
    found: (Vec<Real>, Array2),
)
    requires
        functional(ar),
        e.computes(ar),
        symmetric(a),
        a.rows > 0,
        rotates_exactly(
            e,
            ar,
            a,
            off_diagonal_threshold(ar, a, tolerance),
            (rotation_limit(a.rows) - 1) as nat,
        ),
        eigen_outcome(ar, a, tolerance, Ok(found)),
    ensures
        exists|c: spec_fn(int, int) -> Real| #[trigger]
            diagonalized(
                e,
                a,
                found.0@,
                found.1@,
                c,
                off_diagonal_threshold(ar, a, tolerance),
            ),
{
    let n = a.rows as int;
    let threshold = off_diagonal_threshold(ar, a, tolerance);
    let limit = (rotation_limit(a.rows) - 1) as nat;
    let (b, v) = rotations(ar, a, threshold, limit);
    rotations_diagonalize(e, ar, a, threshold, limit);
    lemma_pivot(b, b.rows - 1, b.cols as int);
    let x = found.1@;
    let order = choose|order: Seq<usize>|
        {
            &&& #[trigger] permutes(order, b.rows)
            &&& found.0@ == Seq::new(b.rows, |i: int| b.at(order[i] as int, order[i] as int))
            &&& x == Grid::generated(b.rows, b.rows, |i: int, j: int| v.at(i, order[j] as int))
        };
    let c = |i: int, j: int| b.at(order[i] as int, order[j] as int);
    assert forall|j: int| 0 <= j < n implies #[trigger] c(j, j) == found.0@[j] by {}
    assert forall|i: int, j: int| 0 <= i < n && 0 <= j < n && i != j && !(#[trigger] c(i, j)).nan() implies
        c(i, j).absolute().at_most(threshold) by {
        let (k, l) = (order[i] as int, order[j] as int);
        assert(order[i] < n && order[j] < n);
        if i < j {
            assert(order[i] != order[j]);
        } else {
            assert(order[j] != order[i]);
        }
        assert(b.at(k, l) == b.at(l, k));
        if k < l {
            assert(b.at(k, l).absolute().at_most(pivot_of(b).size));
        } else {
            assert(b.at(l, k).absolute().at_most(pivot_of(b).size));
        }
    }
    assert forall|i: int, j: int| 0 <= i < n && 0 <= j < n implies e.same(
        #[trigger] columns_crossed(e, x, i, j),
        delta(i, j),
    ) by {
        let (k, l) = (order[i] as int, order[j] as int);
        assert(order[i] < n && order[j] < n);
        if i < j {
            assert(order[i] != order[j]);
        } else if j < i {
            assert(order[j] != order[i]);
        }
        assert(e.same(columns_crossed(e, v, k, l), delta(k, l)));
        let f = |m: int| cell(e, x, m, i) * cell(e, x, m, j);
        let g = |m: int| cell(e, v, m, k) * cell(e, v, m, l);
        lemma_total_equal(f, g, n);
    }
    assert forall|i: int, j: int| 0 <= i < n && 0 <= j < n implies e.same(
        #[trigger] crossed(e, a, x, i, j),
        total_of(|k: int| cell(e, x, i, k) * e.of(c(k, j)), n),
    ) by {
        let l = order[j] as int;
        assert(order[j] < n);
        assert(e.same(crossed(e, a, v, i, l), crossed(e, v, b, i, l)));
        let f = |m: int| cell(e, a, i, m) * cell(e, x, m, j);
        let g = |m: int| cell(e, a, i, m) * cell(e, v, m, l);
        lemma_total_equal(f, g, n);
        let h = |m: int| cell(e, v, i, m) * cell(e, b, m, l);
        let r = |k: int| cell(e, x, i, k) * e.of(c(k, j));
        assert forall|k: int| 0 <= k < n implies #[trigger] r(k) == h(order[k] as int) by {
            assert(order[k] < n);
        }
        lemma_total_permuted(h, order, n);
        let s = |k: int| h(order[k] as int);
        lemma_total_equal(r, s, n);
    }
    assert(diagonalized(e, a, found.0@, x, c, threshold));
}

/// A total in another order.
pub(crate) proof fn lemma_total_permuted(f: spec_fn(int) -> int, order: Seq<usize>, n: int)
    requires
        permutes(order, n as nat),
        0 <= n,
    ensures
        total_of(|k: int| f(order[k] as int), n) == total_of(f, n),
{
    let c = |k: int, l: int|
        if order[k] == l {
            f(l)
        } else {
            0
        };
    let left = |k: int| f(order[k] as int);
    let rows = |k: int| total_of(|l: int| c(k, l), n);
    assert forall|k: int| 0 <= k < n implies #[trigger] left(k) == rows(k) by {
        assert(order[k] < n);
        let row = |l: int| c(k, l);
        lemma_total_single(row, n, order[k] as int);
    }
    lemma_total_equal(left, rows, n);
    crate::exact::lemma_total_swap(c, n, n);
    let cols = |l: int| total_of(|k: int| c(k, l), n);
    assert forall|l: int| 0 <= l < n implies #[trigger] cols(l) == f(l) by {
        lemma_reached(order, n, l);
        let k = choose|k: int| 0 <= k < n && #[trigger] order[k] == l;
        let col = |i: int| c(i, l);
        assert forall|i: int| 0 <= i < n && i != k implies #[trigger] col(i) == 0 by {
            if i < k {
                assert(order[i] != order[k]);
            } else {
                assert(order[k] != order[i]);
            }
        }
        lemma_total_single(col, n, k);
    }
    lemma_total_equal(cols, f, n);
}

/// A permutation reaches every index.
proof fn lemma_reached(order: Seq<usize>, n: int, l: int)
    requires
        permutes(order, n as nat),
        0 <= l < n,
    ensures
        exists|k: int| 0 <= k < n && #[trigger] order[k] == l,
{
    let all = Set::new(|x: int| 0 <= x < n);
    let mapped = order.map_values(|x: usize| x as int);
    vstd::set_lib::lemma_int_range(0, n);
    assert(all =~= vstd::set_lib::set_int_range(0, n));
    assert(mapped.no_duplicates()) by {
        assert forall|i: int, j: int| 0 <= i < mapped.len() && 0 <= j < mapped.len() && i
            != j implies mapped[i] != mapped[j] by {
            if i < j {
                assert(order[i] != order[j]);
            } else {
                assert(order[j] != order[i]);
            }
        }
    }
    mapped.unique_seq_to_set();
    assert(mapped.to_set().subset_of(all)) by {
        assert forall|x: int| mapped.to_set().contains(x) implies all.contains(x) by {
            let i = choose|i: int| 0 <= i < mapped.len() && mapped[i] == x;
            assert(order[i] < n);
        }
    }
    vstd::set_lib::lemma_subset_equality(mapped.to_set(), all);
    assert(mapped.to_set().contains(l));
    let k = choose|k: int| 0 <= k < mapped.len() && mapped[k] == l;
    assert(order[k] == l);
}

} // verus!
