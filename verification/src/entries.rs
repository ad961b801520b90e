//! What sparse matrices are: numbers in rows and columns.

use crate::arithmetic::Arithmetic;
use crate::double::Real;
use crate::exact::{
    inner, lemma_constants, lemma_nil_sum, lemma_nil_times, lemma_nil_zero, lemma_product,
    lemma_same_trans, lemma_sum, lemma_sum_product, lemma_total_equal, lemma_total_linear,
    lemma_total_same, lemma_total_single, lemma_total_split, lemma_total_swap, lemma_total_zero,
    total_of, Exact,
};
use crate::sparse::{
    assembled, column_list, column_upto, diagonal, diagonally_loaded, joined, lemma_column,
    lemma_has_column, lemma_packed_column, lemma_transposed_wf, packed, product, product_terms,
    scaled_column, total, Csc, Triplet,
};
use vstd::prelude::*;

verus! {

/// What stored entry `l` puts into row `i` and column `j`.
pub open spec fn entry_term(e: Exact, m: Csc, i: int, j: int, l: int) -> int {
    if m.rows[l] == i && m.column_of(l) == j {
        e.of(m.values[l])
    } else {
        0
    }
}

/// What member `l` of a list of rows and values puts into row `i`.
pub open spec fn list_term(e: Exact, list: Seq<(u32, Real)>, i: int, l: int) -> int {
    if list[l].0 == i {
        e.of(list[l].1)
    } else {
        0
    }
}

/// What triplet `l` puts into row `i` and column `j`.
pub open spec fn placed_term(e: Exact, t: Seq<Triplet>, i: int, j: int, l: int) -> int {
    if t[l].0 == i && t[l].1 == j {
        e.of(t[l].2)
    } else {
        0
    }
}

/// The number in row `i` and column `j`, as far as the first `k` stored entries make it up.
pub open spec fn entry_upto(e: Exact, m: Csc, i: int, j: int, k: int) -> int {
    total_of(
        |l: int| entry_term(e, m, i, j, l),
        k,
    )
}

/// The number in row `i` and column `j`.
pub open spec fn entry(e: Exact, m: Csc, i: int, j: int) -> int {
    entry_upto(e, m, i, j, m.nnz() as int)
}

/// The number that a list of rows and values has in row `i`.
pub open spec fn list_entry(e: Exact, list: Seq<(u32, Real)>, i: int) -> int {
    total_of(
        |l: int| list_term(e, list, i, l),
        list.len() as int,
    )
}

/// The sum of what the first `k` triplets put into row `i` and column `j`.
pub open spec fn placed_upto(e: Exact, t: Seq<Triplet>, i: int, j: int, k: int) -> int {
    total_of(
        |l: int| placed_term(e, t, i, j, l),
        k,
    )
}

/// The sum of what triplets put into row `i` and column `j`.
pub open spec fn placed(e: Exact, t: Seq<Triplet>, i: int, j: int) -> int {
    placed_upto(e, t, i, j, t.len() as int)
}

/// Row `i` of a matrix times a vector.
pub open spec fn row_times(e: Exact, m: Csc, i: int, x: Seq<Real>) -> int {
    total_of(|j: int| entry(e, m, i, j) * e.of(x[j]), m.ncols as int)
}

/// Column `j` of a matrix times a vector.
pub open spec fn column_times(e: Exact, m: Csc, j: int, y: Seq<Real>) -> int {
    total_of(|i: int| entry(e, m, i, j) * e.of(y[i]), m.nrows as int)
}

proof fn lemma_applied_len<A: Arithmetic>(ar: A, m: Csc, x: Seq<Real>, k: int)
    requires
        m.wf(),
        k <= m.nnz(),
    ensures
        m.applied_upto(ar, x, k).len() == m.nrows,
    decreases k,
{
    if k > 0 {
        lemma_applied_len(ar, m, x, k - 1);
        assert(m.rows[k - 1] < m.nrows);
    }
}

pub(crate) proof fn lemma_applied_length<A: Arithmetic>(ar: A, m: Csc, x: Seq<Real>)
    requires
        m.wf(),
    ensures
        m.applied(ar, x).len() == m.nrows,
{
    lemma_applied_len(ar, m, x, m.nnz() as int);
}

proof fn lemma_applied_upto<A: Arithmetic>(e: Exact, ar: A, m: Csc, x: Seq<Real>, i: int, k: int)
    requires
        e.computes(ar),
        m.wf(),
        0 <= i < m.nrows,
        0 <= k <= m.nnz(),
    ensures
        e.same(
            e.of(m.applied_upto(ar, x, k)[i]),
            total_of(|j: int| entry_upto(e, m, i, j, k) * e.of(x[j]), m.ncols as int),
        ),
    decreases k,
{
    let n = m.ncols as int;
    let f = |j: int| entry_upto(e, m, i, j, k) * e.of(x[j]);
    if k == 0 {
        assert forall|j: int| 0 <= j < n implies #[trigger] f(j) == 0 by {
            assert(0 * e.of(x[j]) == 0) by (nonlinear_arith);
        }
        lemma_total_zero(f, n);
        lemma_constants(e, ar);
    } else {
        lemma_applied_upto(e, ar, m, x, i, k - 1);
        lemma_applied_len(ar, m, x, k - 1);
        lemma_has_column(m, k - 1);
        let c = m.column_of(k - 1);
        let v = m.values[k - 1];
        let before = m.applied_upto(ar, x, k - 1);
        let row = m.rows[k - 1] as int;
        assert(m.rows[k - 1] < m.nrows);
        let g = |j: int| entry_upto(e, m, i, j, k - 1) * e.of(x[j]);
        if row == i {
            let d = |j: int|
                if j == c {
                    e.of(v) * e.of(x[j])
                } else {
                    0
                };
            let both = |j: int| 1 * g(j) + 1 * d(j);
            assert forall|j: int| 0 <= j < n implies #[trigger] f(j) == both(j) by {
                let (a, b, y) = (entry_upto(e, m, i, j, k - 1), e.of(v), e.of(x[j]));
                assert((a + b) * y == 1 * (a * y) + 1 * (b * y)) by (nonlinear_arith);
                assert((a + 0) * y == 1 * (a * y) + 1 * 0) by (nonlinear_arith);
            }
            lemma_total_equal(f, both, n);
            lemma_total_linear(g, d, 1, 1, n);
            lemma_total_single(d, n, c);
            lemma_sum_product(e, ar, before[i], v, x[c]);
            lemma_nil_sum(
                e,
                e.of(m.applied_upto(ar, x, k)[i]) - (e.of(before[i]) + e.of(v) * e.of(x[c])),
                e.of(before[i]) - total_of(g, n),
            );
        } else {
            assert forall|j: int| 0 <= j < n implies #[trigger] f(j) == g(j) by {}
            lemma_total_equal(f, g, n);
        }
    }
}

/// A matrix times a vector has in row `i` the sum, over the columns, of the numbers of that
/// row times the entries of the vector.
pub proof fn rows_are_multiplied_and_added<A: Arithmetic>(
    e: Exact,
    ar: A,
    m: Csc,
    x: Seq<Real>,
    i: int,
)
    requires
        e.computes(ar),
        m.wf(),
        0 <= i < m.nrows,
    ensures
        e.same(e.of(m.applied(ar, x)[i]), row_times(e, m, i, x)),
{
    lemma_applied_upto(e, ar, m, x, i, m.nnz() as int);
    let f = |j: int| entry_upto(e, m, i, j, m.nnz() as int) * e.of(x[j]);
    let g = |j: int| entry(e, m, i, j) * e.of(x[j]);
    lemma_total_equal(f, g, m.ncols as int);
}

/// The numbers of a column are those of its list.
pub(crate) proof fn lemma_entry_in_column(e: Exact, m: Csc, i: int, j: int)
    requires
        m.wf(),
        0 <= j < m.ncols,
    ensures
        entry(e, m, i, j) == list_entry(e, column_list(m, j), i),
{
    let f = |l: int| entry_term(e, m, i, j, l);
    let list = column_list(m, j);
    let g = |l: int| list_term(e, list, i, l);
    let a = m.starts[j] as int;
    let b = m.starts[j + 1] - a;
    let c = m.nnz() as int - a - b;
    assert(m.starts[j] <= m.starts[j + 1]);
    assert(m.starts[j + 1] <= m.starts[m.ncols as int]);
    lemma_total_split(f, a, b + c);
    let from_a = |l: int| f(a + l);
    lemma_total_split(from_a, b, c);
    let rest = |l: int| from_a(b + l);
    assert forall|l: int| 0 <= l < a implies #[trigger] f(l) == 0 by {
        lemma_has_column(m, l);
        if m.column_of(l) == j {
            assert(m.in_column(l, j));
        }
    }
    lemma_total_zero(f, a);
    assert forall|l: int| 0 <= l < c implies #[trigger] rest(l) == 0 by {
        lemma_has_column(m, a + b + l);
        if m.column_of(a + (b + l)) == j {
            assert(m.in_column(a + b + l, j));
        }
    }
    lemma_total_zero(rest, c);
    assert forall|l: int| 0 <= l < b implies #[trigger] from_a(l) == g(l) by {
        assert(m.in_column(a + l, j));
        lemma_column(m, a + l, j);
    }
    lemma_total_equal(from_a, g, b);
}

proof fn lemma_entry_packed(e: Exact, nrows: nat, lists: Seq<Seq<(u32, Real)>>, i: int, j: int)
    requires
        packed(nrows, lists).wf(),
        0 <= j < lists.len(),
    ensures
        entry(e, packed(nrows, lists), i, j) == list_entry(e, lists[j], i),
{
    let m = packed(nrows, lists);
    assert(m.starts[m.ncols as int] == joined(lists, lists.len() as int).len());
    lemma_packed_column(nrows, lists, j);
    lemma_entry_in_column(e, m, i, j);
}

proof fn lemma_list_push(e: Exact, list: Seq<(u32, Real)>, r: u32, v: Real, i: int)
    ensures
        list_entry(e, list.push((r, v)), i) == list_entry(e, list, i) + if r == i {
            e.of(v)
        } else {
            0
        },
{
    let more = list.push((r, v));
    let f = |l: int| list_term(e, more, i, l);
    let g = |l: int| list_term(e, list, i, l);
    lemma_total_equal(f, g, list.len() as int);
}

pub(crate) proof fn lemma_row_list_entry(e: Exact, m: Csc, i: int, j: int, k: int)
    requires
        m.wf(),
        0 <= k <= m.nnz(),
        0 <= j < m.ncols,
        m.ncols <= u32::MAX + 1,
    ensures
        list_entry(e, m.row_list(i, k), j) == entry_upto(e, m, i, j, k),
    decreases k,
{
    if k > 0 {
        lemma_row_list_entry(e, m, i, j, k - 1);
        lemma_has_column(m, k - 1);
        if m.rows[k - 1] == i {
            lemma_list_push(
                e,
                m.row_list(i, k - 1),
                m.column_of(k - 1) as u32,
                m.values[k - 1],
                j,
            );
        }
    }
}

/// The transposed matrix has in row `j` and column `i` what the matrix has in row `i` and
/// column `j`.
pub proof fn transposing_exchanges_rows_and_columns(e: Exact, m: Csc, i: int, j: int)
    requires
        m.wf(),
        m.ncols <= u32::MAX,
        0 <= i < m.nrows,
        0 <= j < m.ncols,
    ensures
        entry(e, m.transposed(), j, i) == entry(e, m, i, j),
{
    let lists = Seq::new(m.nrows, |r: int| m.row_list(r, m.nnz() as int));
    lemma_transposed_wf(m);
    lemma_entry_packed(e, m.ncols, lists, j, i);
    lemma_row_list_entry(e, m, i, j, m.nnz() as int);
}

/// The transposed matrix times a vector has in row `j` the sum, over the rows, of the numbers
/// of column `j` times the entries of the vector.
pub proof fn columns_are_multiplied_and_added<A: Arithmetic>(
    e: Exact,
    ar: A,
    m: Csc,
    y: Seq<Real>,
    j: int,
)
    requires
        e.computes(ar),
        m.wf(),
        m.ncols <= u32::MAX,
        0 <= j < m.ncols,
    ensures
        e.same(e.of(m.transposed().applied(ar, y)[j]), column_times(e, m, j, y)),
{
    lemma_transposed_wf(m);
    rows_are_multiplied_and_added(e, ar, m.transposed(), y, j);
    let f = |i: int| entry(e, m.transposed(), j, i) * e.of(y[i]);
    let g = |i: int| entry(e, m, i, j) * e.of(y[i]);
    assert forall|i: int| 0 <= i < m.nrows implies #[trigger] f(i) == g(i) by {
        transposing_exchanges_rows_and_columns(e, m, i, j);
    }
    lemma_total_equal(f, g, m.nrows as int);
}

/// A matrix and its transposed are adjoint: `y . (M x)` is `(M' y) . x`.
pub proof fn transposed_matrices_are_adjoint<A: Arithmetic>(
    e: Exact,
    ar: A,
    m: Csc,
    x: Seq<Real>,
    y: Seq<Real>,
)
    requires
        e.computes(ar),
        m.wf(),
        m.ncols <= u32::MAX,
        x.len() == m.ncols,
        y.len() == m.nrows,
    ensures
        e.same(
            inner(e, y, m.applied(ar, x)),
            inner(e, m.transposed().applied(ar, y), x),
        ),
{
    let (r, c) = (m.nrows as int, m.ncols as int);
    let f = |i: int, j: int| e.of(y[i]) * (entry(e, m, i, j) * e.of(x[j]));
    let left = |i: int| e.of(y[i]) * e.of(m.applied(ar, x)[i]);
    let rows = |i: int| total_of(|j: int| f(i, j), c);
    assert forall|i: int| 0 <= i < r implies e.same(#[trigger] left(i), rows(i)) by {
        rows_are_multiplied_and_added(e, ar, m, x, i);
        let g = |j: int| entry(e, m, i, j) * e.of(x[j]);
        let h = |j: int| e.of(y[i]) * g(j) + 0 * g(j);
        lemma_total_linear(g, g, e.of(y[i]), 0, c);
        let fi = |j: int| f(i, j);
        assert forall|j: int| 0 <= j < c implies #[trigger] fi(j) == h(j) by {
            assert(0 * g(j) == 0) by (nonlinear_arith);
        }
        lemma_total_equal(fi, h, c);
        assert(0 * total_of(g, c) == 0) by (nonlinear_arith);
        let (a, b, t) = (e.of(y[i]), e.of(m.applied(ar, x)[i]), total_of(g, c));
        lemma_nil_times(e, a, b - t);
        assert(a * (b - t) == a * b - a * t) by (nonlinear_arith);
    }
    lemma_total_same(e, left, rows, r);
    lemma_total_swap(f, r, c);
    let z = m.transposed().applied(ar, y);
    lemma_transposed_wf(m);
    lemma_applied_length(ar, m.transposed(), y);
    let right = |j: int| e.of(z[j]) * e.of(x[j]);
    let cols = |j: int| total_of(|i: int| f(i, j), r);
    assert forall|j: int| 0 <= j < c implies e.same(#[trigger] cols(j), right(j)) by {
        columns_are_multiplied_and_added(e, ar, m, y, j);
        let g = |i: int| entry(e, m, i, j) * e.of(y[i]);
        let h = |i: int| e.of(x[j]) * g(i) + 0 * g(i);
        lemma_total_linear(g, g, e.of(x[j]), 0, r);
        let fj = |i: int| f(i, j);
        assert forall|i: int| 0 <= i < r implies #[trigger] fj(i) == h(i) by {
            let (a, b, t) = (e.of(y[i]), entry(e, m, i, j), e.of(x[j]));
            assert(a * (b * t) == t * (b * a) + 0 * (b * a)) by (nonlinear_arith);
        }
        lemma_total_equal(fj, h, r);
        assert(0 * total_of(g, r) == 0) by (nonlinear_arith);
        let (a, b, t) = (e.of(x[j]), e.of(z[j]), total_of(g, r));
        lemma_nil_times(e, -a, b - t);
        assert((-a) * (b - t) == a * t - b * a) by (nonlinear_arith);
    }
    lemma_total_same(e, cols, right, c);
    lemma_applied_length(ar, m, x);
    lemma_same_trans(e, total_of(left, r), total_of(rows, r), total_of(right, c));
}

proof fn lemma_total_of_triplets<A: Arithmetic>(
    e: Exact,
    ar: A,
    t: Seq<Triplet>,
    i: int,
    j: int,
    k: int,
)
    requires
        e.computes(ar),
    ensures
        match total(ar, t, i, j, k) {
            None => placed_upto(e, t, i, j, k) == 0,
            Some(s) => e.same(e.of(s), placed_upto(e, t, i, j, k)),
        },
    decreases k,
{
    if k > 0 {
        lemma_total_of_triplets(e, ar, t, i, j, k - 1);
        if t[k - 1].0 == i && t[k - 1].1 == j {
            match total(ar, t, i, j, k - 1) {
                None => {
                    lemma_nil_zero(e);
                },
                Some(s) => {
                    lemma_sum(e, ar, s, t[k - 1].2);
                    let now = total(ar, t, i, j, k)->0;
                    lemma_nil_sum(
                        e,
                        e.of(now) - (e.of(s) + e.of(t[k - 1].2)),
                        e.of(s) - placed_upto(e, t, i, j, k - 1),
                    );
                },
            }
        }
    }
}

proof fn lemma_column_entry<A: Arithmetic>(
    e: Exact,
    ar: A,
    t: Seq<Triplet>,
    i: int,
    j: int,
    r: int,
)
    requires
        e.computes(ar),
        0 <= r <= u32::MAX + 1,
        0 <= i,
    ensures
        i < r ==> e.same(list_entry(e, column_upto(ar, t, j, r), i), placed(e, t, i, j)),
        i >= r ==> list_entry(e, column_upto(ar, t, j, r), i) == 0,
    decreases r,
{
    if r > 0 {
        lemma_column_entry(e, ar, t, i, j, r - 1);
        let before = column_upto(ar, t, j, r - 1);
        lemma_total_of_triplets(e, ar, t, r - 1, j, t.len() as int);
        match total(ar, t, r - 1, j, t.len() as int) {
            None => {
                if i == r - 1 {
                    lemma_nil_zero(e);
                }
            },
            Some(s) => {
                lemma_list_push(e, before, (r - 1) as u32, s, i);
            },
        }
    }
}

/// A matrix that is assembled of triplets has in row `i` and column `j` the sum of what
/// triplets put there.
pub proof fn assembling_adds_up<A: Arithmetic>(
    e: Exact,
    ar: A,
    nrows: nat,
    ncols: nat,
    t: Seq<Triplet>,
    i: int,
    j: int,
)
    requires
        e.computes(ar),
        nrows <= u32::MAX,
        assembled(ar, nrows, ncols, t).wf(),
        0 <= i < nrows,
        0 <= j < ncols,
    ensures
        e.same(entry(e, assembled(ar, nrows, ncols, t), i, j), placed(e, t, i, j)),
{
    let lists = Seq::new(ncols, |c: int| column_upto(ar, t, c, nrows as int));
    lemma_entry_packed(e, nrows, lists, i, j);
    lemma_column_entry(e, ar, t, i, j, nrows as int);
}

pub(crate) proof fn lemma_placed_joined(
    e: Exact,
    s: Seq<Triplet>,
    t: Seq<Triplet>,
    i: int,
    j: int,
)
    ensures
        placed(e, s + t, i, j) == placed(e, s, i, j) + placed(e, t, i, j),
{
    let all = s + t;
    let f = |l: int| placed_term(e, all, i, j, l);
    let g = |l: int| placed_term(e, s, i, j, l);
    let h = |l: int| placed_term(e, t, i, j, l);
    lemma_total_split(f, s.len() as int, t.len() as int);
    assert forall|l: int| 0 <= l < s.len() implies #[trigger] f(l) == g(l) by {
        assert(all[l] == s[l]);
    }
    lemma_total_equal(f, g, s.len() as int);
    let after = |l: int| f(s.len() + l);
    assert forall|l: int| 0 <= l < t.len() implies #[trigger] after(l) == h(l) by {
        assert(all[s.len() + l] == t[l]);
    }
    lemma_total_equal(after, h, t.len() as int);
}

proof fn lemma_scaled_column_placed<A: Arithmetic>(
    e: Exact,
    ar: A,
    a: Csc,
    k: int,
    c: int,
    v: Real,
    i: int,
    j: int,
)
    requires
        e.computes(ar),
        a.wf(),
        0 <= k < a.ncols,
        0 <= c <= u32::MAX,
    ensures
        e.same(
            placed(e, scaled_column(ar, a, k, c, v, (a.starts[k + 1] - a.starts[k]) as nat), i, j),
            if c == j {
                entry(e, a, i, k) * e.of(v)
            } else {
                0
            },
        ),
{
    assert(a.starts[k] <= a.starts[k + 1]);
    assert(a.starts[k + 1] <= a.starts[a.ncols as int]);
    let n = a.starts[k + 1] - a.starts[k];
    let t = scaled_column(ar, a, k, c, v, n as nat);
    let list = column_list(a, k);
    let f = |l: int| placed_term(e, t, i, j, l);
    let g = |l: int| list_term(e, list, i, l);
    if c == j {
        let h = |l: int| e.of(v) * g(l) + 0 * g(l);
        assert forall|l: int| 0 <= l < n implies e.same(#[trigger] f(l), h(l)) by {
            let x = list[l].1;
            lemma_product(e, ar, x, v);
            let (p, q) = (e.of(x), e.of(v));
            assert(q * p + 0 * p == p * q) by (nonlinear_arith);
            assert(q * 0 + 0 * 0 == 0) by (nonlinear_arith);
            lemma_nil_zero(e);
        }
        lemma_total_same(e, f, h, n);
        lemma_total_linear(g, g, e.of(v), 0, n);
        lemma_entry_in_column(e, a, i, k);
        let (s, q) = (total_of(g, n), e.of(v));
        assert(q * s + 0 * s == s * q) by (nonlinear_arith);
    } else {
        assert forall|l: int| 0 <= l < n implies #[trigger] f(l) == 0 by {}
        lemma_total_zero(f, n);
        lemma_nil_zero(e);
    }
}

proof fn lemma_product_placed<A: Arithmetic>(
    e: Exact,
    ar: A,
    a: Csc,
    b: Csc,
    i: int,
    j: int,
    q: int,
)
    requires
        e.computes(ar),
        a.wf(),
        b.wf(),
        a.ncols == b.nrows,
        b.ncols <= u32::MAX,
        0 <= q <= b.nnz(),
    ensures
        e.same(
            placed(e, product_terms(ar, a, b, q), i, j),
            total_of(
                |k: int| entry(e, a, i, k) * entry_upto(e, b, k, j, q),
                a.ncols as int,
            ),
        ),
    decreases q,
{
    let n = a.ncols as int;
    let f = |k: int| entry(e, a, i, k) * entry_upto(e, b, k, j, q);
    if q == 0 {
        assert forall|k: int| 0 <= k < n implies #[trigger] f(k) == 0 by {
            assert(entry(e, a, i, k) * 0 == 0) by (nonlinear_arith);
        }
        lemma_total_zero(f, n);
        lemma_nil_zero(e);
    } else {
        lemma_product_placed(e, ar, a, b, i, j, q - 1);
        lemma_has_column(b, q - 1);
        let c = b.column_of(q - 1);
        let row = b.rows[q - 1] as int;
        let v = b.values[q - 1];
        assert(b.rows[q - 1] < b.nrows);
        let before = product_terms(ar, a, b, q - 1);
        let last = scaled_column(ar, a, row, c, v, (a.starts[row + 1] - a.starts[row]) as nat);
        lemma_placed_joined(e, before, last, i, j);
        lemma_scaled_column_placed(e, ar, a, row, c, v, i, j);
        let g = |k: int| entry(e, a, i, k) * entry_upto(e, b, k, j, q - 1);
        let d = |k: int|
            if k == row && c == j {
                entry(e, a, i, k) * e.of(v)
            } else {
                0
            };
        let both = |k: int| 1 * g(k) + 1 * d(k);
        assert forall|k: int| 0 <= k < n implies #[trigger] f(k) == both(k) by {
            let (s, t, u) = (entry(e, a, i, k), entry_upto(e, b, k, j, q - 1), e.of(v));
            assert(s * (t + u) == 1 * (s * t) + 1 * (s * u)) by (nonlinear_arith);
            assert(s * (t + 0) == 1 * (s * t) + 1 * 0) by (nonlinear_arith);
        }
        lemma_total_equal(f, both, n);
        lemma_total_linear(g, d, 1, 1, n);
        lemma_total_single(d, n, row);
        lemma_nil_sum(
            e,
            placed(e, before, i, j) - total_of(g, n),
            placed(e, last, i, j) - d(row),
        );
    }
}

/// The product of two matrices has in row `i` and column `j` the sum of the products of row
/// `i` of the first and column `j` of the second.
pub proof fn products_multiply_rows_and_columns<A: Arithmetic>(
    e: Exact,
    ar: A,
    a: Csc,
    b: Csc,
    i: int,
    j: int,
)
    requires
        e.computes(ar),
        a.wf(),
        b.wf(),
        a.ncols == b.nrows,
        a.nrows <= u32::MAX,
        b.ncols <= u32::MAX,
        product(ar, a, b).wf(),
        0 <= i < a.nrows,
        0 <= j < b.ncols,
    ensures
        e.same(
            entry(e, product(ar, a, b), i, j),
            total_of(|k: int| entry(e, a, i, k) * entry(e, b, k, j), a.ncols as int),
        ),
{
    let t = product_terms(ar, a, b, b.nnz() as int);
    assembling_adds_up(e, ar, a.nrows, b.ncols, t, i, j);
    lemma_product_placed(e, ar, a, b, i, j, b.nnz() as int);
    let f = |k: int| entry(e, a, i, k) * entry_upto(e, b, k, j, b.nnz() as int);
    let g = |k: int| entry(e, a, i, k) * entry(e, b, k, j);
    lemma_total_equal(f, g, a.ncols as int);
    lemma_same_trans(
        e,
        entry(e, product(ar, a, b), i, j),
        placed(e, t, i, j),
        total_of(|k: int| entry(e, a, i, k) * entry(e, b, k, j), a.ncols as int),
    );
}

/// What a diagonal puts into a place.
pub(crate) proof fn lemma_diagonal_placed(
    e: Exact,
    t: Seq<Triplet>,
    from: int,
    v: Real,
    i: int,
    j: int,
)
    requires
        0 <= from,
        from + t.len() <= u32::MAX,
        forall|k: int|
            0 <= k < t.len() ==> #[trigger] t[k] == ((from + k) as u32, (from + k) as u32, v),
    ensures
        placed(e, t, i, j) == if i == j && from <= i < from + t.len() {
            e.of(v)
        } else {
            0
        },
{
    let f = |l: int| placed_term(e, t, i, j, l);
    let n = t.len() as int;
    if i == j && from <= i < from + n {
        assert forall|l: int| 0 <= l < n && l != i - from implies #[trigger] f(l) == 0 by {
            assert(t[l] == ((from + l) as u32, (from + l) as u32, v));
        }
        assert(t[i - from] == (i as u32, i as u32, v));
        lemma_total_single(f, n, i - from);
    } else {
        assert forall|l: int| 0 <= l < n implies #[trigger] f(l) == 0 by {
            assert(t[l] == ((from + l) as u32, (from + l) as u32, v));
        }
        lemma_total_zero(f, n);
    }
}

/// What the triplets of a matrix put into a place is the number there.
pub(crate) proof fn lemma_triplets_placed(e: Exact, m: Csc, i: int, j: int)
    requires
        m.wf(),
        m.ncols <= u32::MAX,
    ensures
        placed(e, m.triplets(), i, j) == entry(e, m, i, j),
{
    let t = m.triplets();
    let f = |l: int| placed_term(e, t, i, j, l);
    let g = |l: int| entry_term(e, m, i, j, l);
    assert forall|l: int| 0 <= l < m.nnz() implies #[trigger] f(l) == g(l) by {
        lemma_has_column(m, l);
    }
    lemma_total_equal(f, g, m.nnz() as int);
}

/// Loading the diagonal adds to the numbers on it and leaves the others.
pub proof fn loading_adds_to_the_diagonal<A: Arithmetic>(
    e: Exact,
    ar: A,
    m: Csc,
    v: Real,
    i: int,
    j: int,
)
    requires
        e.computes(ar),
        m.wf(),
        m.nrows == m.ncols,
        m.ncols <= u32::MAX,
        diagonally_loaded(ar, m, v).wf(),
        0 <= i < m.nrows,
        0 <= j < m.ncols,
    ensures
        e.same(
            entry(e, diagonally_loaded(ar, m, v), i, j),
            entry(e, m, i, j) + if i == j {
                e.of(v)
            } else {
                0
            },
        ),
{
    let d = diagonal(m.ncols, v);
    assembling_adds_up(e, ar, m.nrows, m.ncols, m.triplets() + d, i, j);
    lemma_placed_joined(e, m.triplets(), d, i, j);
    lemma_triplets_placed(e, m, i, j);
    lemma_diagonal_placed(e, d, 0, v, i, j);
}

/// A matrix whose rows are scaled has in row `i` the numbers of that row times its scale.
pub proof fn row_scaling_multiplies_rows<A: Arithmetic>(
    e: Exact,
    ar: A,
    m: Csc,
    scales: Seq<Real>,
    i: int,
    j: int,
)
    requires
        e.computes(ar),
        m.wf(),
    ensures
        e.same(
            entry(e, m.row_scaled(ar, scales), i, j),
            e.of(scales[i]) * entry(e, m, i, j),
        ),
{
    let s = m.row_scaled(ar, scales);
    let n = m.nnz() as int;
    let f = |l: int| entry_term(e, s, i, j, l);
    let g = |l: int| entry_term(e, m, i, j, l);
    let c = e.of(scales[i]);
    let h = |l: int| c * g(l) + 0 * g(l);
    assert forall|l: int| 0 <= l < n implies e.same(#[trigger] f(l), h(l)) by {
        lemma_same_columns(m, s, l);
        let (p, v) = (e.of(scales[m.rows[l] as int]), e.of(m.values[l]));
        lemma_product(e, ar, m.values[l], scales[m.rows[l] as int]);
        assert(c * v + 0 * v == v * c) by (nonlinear_arith);
        assert(c * 0 + 0 * 0 == 0) by (nonlinear_arith);
        lemma_nil_zero(e);
    }
    lemma_total_same(e, f, h, n);
    lemma_total_linear(g, g, c, 0, n);
    let t = total_of(g, n);
    assert(c * t + 0 * t == c * t) by (nonlinear_arith);
}

/// Matrices that differ in their values alone have their entries in the same columns.
pub(crate) proof fn lemma_same_columns(m: Csc, s: Csc, l: int)
    requires
        m.wf(),
        0 <= l < m.nnz(),
        s.starts == m.starts,
        s.ncols == m.ncols,
        s.nrows == m.nrows,
        s.rows == m.rows,
        s.values.len() == m.values.len(),
    ensures
        s.column_of(l) == m.column_of(l),
{
    lemma_has_column(m, l);
    assert(s.in_column(l, m.column_of(l)));
    lemma_column(s, l, m.column_of(l));
}

} // verus!
