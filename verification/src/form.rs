//! What the geometric error says of the shape that force densities find.

use crate::arithmetic::{difference_of, functional, Arithmetic};
use crate::array::Grid;
use crate::balance::{free_rows_hold_directions, free_rows_hold_loads};
use crate::double::{Real, ONE};
use crate::entries::{
    assembling_adds_up, entry, entry_term, lemma_diagonal_placed, lemma_placed_joined, placed,
    placed_term, products_multiply_rows_and_columns, row_scaling_multiplies_rows, row_times,
    transposing_exchanges_rows_and_columns,
};
use crate::equilibrium::{describes, spans, EquilibriumSystem, EquilibriumUnknown};
use crate::exact::{
    lemma_combine, lemma_combine3, lemma_difference, lemma_negated, lemma_nil_sum, lemma_nil_times,
    lemma_same_trans, lemma_total_equal, lemma_total_linear, lemma_total_same, lemma_total_split,
    lemma_total_swap, lemma_total_zero, total_of, Exact,
};
use crate::geometry::{found_positions, offsets};
use crate::lengths::{lemma_span_change, well_placed};
use crate::saddle::diagonal_from;
use crate::sparse::{assembled, lemma_has_column, lemma_transposed_wf, Csc};
use crate::types::Problem;
use crate::weight::{axis_blocks, axis_part, column, laplacian, unweighted, weight_terms};
use vstd::prelude::*;

verus! {

/// The Laplacian has in row `i` and column `j` the sum, over the edges, of the incidence of
/// edge and node `i`, the force density, and the incidence of edge and node `j`.
pub proof fn laplacians_add_up_force_densities<A: Arithmetic>(
    e: Exact,
    ar: A,
    problem: Problem,
    q: Seq<Real>,
    i: int,
    j: int,
)
    requires
        e.computes(ar),
        problem.wf(),
        problem.topology.num_edges <= u32::MAX,
        problem.n_free() <= u32::MAX,
        laplacian(ar, problem, q).wf(),
        0 <= i < problem.n_free(),
        0 <= j < problem.n_free(),
    ensures
        e.same(
            entry(e, laplacian(ar, problem, q), i, j),
            total_of(
                |c: int|
                    entry(e, problem.topology.free_incidence@, c, i) * (e.of(q[c]) * entry(
                        e,
                        problem.topology.free_incidence@,
                        c,
                        j,
                    )),
                problem.topology.num_edges as int,
            ),
        ),
{
    let cn = problem.topology.free_incidence@;
    let scaled = cn.row_scaled(ar, q);
    lemma_transposed_wf(cn);
    products_multiply_rows_and_columns(e, ar, cn.transposed(), scaled, i, j);
    let n = cn.nrows as int;
    let f = |c: int| entry(e, cn.transposed(), i, c) * entry(e, scaled, c, j);
    let g = |c: int| entry(e, cn, c, i) * (e.of(q[c]) * entry(e, cn, c, j));
    assert forall|c: int| 0 <= c < n implies e.same(#[trigger] f(c), g(c)) by {
        transposing_exchanges_rows_and_columns(e, cn, c, i);
        row_scaling_multiplies_rows(e, ar, cn, q, c, j);
        let (a, b, d) = (entry(e, cn, c, i), entry(e, scaled, c, j), e.of(q[c]) * entry(e, cn, c, j));
        lemma_nil_times(e, a, b - d);
        assert(a * (b - d) == a * b - a * d) by (nonlinear_arith);
    }
    lemma_total_same(e, f, g, n);
    lemma_same_trans(e, entry(e, laplacian(ar, problem, q), i, j), total_of(f, n), total_of(g, n));
}

/// The row of free node `i` and axis `d`, times force densities.
proof fn lemma_row_of_densities<A: Arithmetic>(
    e: Exact,
    ar: A,
    problem: Problem,
    x: Grid,
    axes: Seq<int>,
    s: EquilibriumSystem,
    q: Seq<Real>,
    i: int,
    d: int,
)
    requires
        functional(ar),
        e.computes(ar),
        problem.wf(),
        describes(s, ar, problem, x, EquilibriumUnknown::ForceDensity, axes),
        0 <= i < problem.n_free(),
        0 <= d < 3,
    ensures
        e.same(
            row_times(e, s.a@, d * problem.n_free() + i, q),
            total_of(
                |c: int|
                    (entry(e, problem.topology.free_incidence@, c, i) * e.of(q[c])) * e.of(
                        spans(ar, problem, x, d)[c],
                    ),
                problem.topology.num_edges as int,
            ),
        ),
{
    let n = problem.topology.num_edges as int;
    let row = d * problem.n_free() + i;
    let cn = problem.topology.free_incidence@;
    let f = |c: int| entry(e, s.a@, row, c) * e.of(q[c]);
    let g = |c: int| (entry(e, cn, c, i) * e.of(q[c])) * e.of(spans(ar, problem, x, d)[c]);
    assert forall|c: int| 0 <= c < n implies e.same(#[trigger] f(c), g(c)) by {
        free_rows_hold_directions(
            e,
            ar,
            problem,
            x,
            EquilibriumUnknown::ForceDensity,
            axes,
            s,
            i,
            d,
            c,
        );
        let (a, b, t, v) = (
            entry(e, s.a@, row, c),
            entry(e, cn, c, i),
            e.of(q[c]),
            e.of(spans(ar, problem, x, d)[c]),
        );
        lemma_nil_times(e, t, a - b * v);
        assert(t * (a - b * v) == a * t - (b * t) * v) by (nonlinear_arith);
    }
    lemma_total_same(e, f, g, n);
}

/// Whether `neg` undoes the residual of force densities at the target: the Laplacian times
/// each axis of it is that axis of the residual `E(x) q - p`.
pub open spec fn undoes_the_residual<A: Arithmetic>(
    e: Exact,
    ar: A,
    problem: Problem,
    s: EquilibriumSystem,
    q: Seq<Real>,
    neg: Seq<Real>,
) -> bool {
    forall|i: int, d: int|
        0 <= i < problem.n_free() && 0 <= d < 3 ==> e.same(
            #[trigger] row_times(
                e,
                laplacian(ar, problem, q),
                i,
                axis_part(neg, problem.n_free() as int, d),
            ),
            row_times(e, s.a@, d * problem.n_free() + i, q) - e.of(
                s.p@[d * problem.n_free() + i],
            ),
        )
}

/// The identity behind the geometric error: where `D(q) n = E(x*) q - p`, the positions
/// `x* - n` are in equilibrium with the loads under the force densities `q`.
pub proof fn found_positions_are_in_equilibrium<A: Arithmetic>(
    e: Exact,
    ar: A,
    problem: Problem,
    x: Grid,
    axes: Seq<int>,
    s: EquilibriumSystem,
    t: EquilibriumSystem,
    q: Seq<Real>,
    neg: Seq<Real>,
    i: int,
    d: int,
)
    requires
        functional(ar),
        e.computes(ar),
        problem.wf(),
        well_placed(problem),
        problem.n_free() <= u32::MAX,
        laplacian(ar, problem, q).wf(),
        describes(s, ar, problem, x, EquilibriumUnknown::ForceDensity, axes),
        describes(
            t,
            ar,
            problem,
            found_positions(ar, x, neg, problem.n_free()),
            EquilibriumUnknown::ForceDensity,
            axes,
        ),
        undoes_the_residual(e, ar, problem, s, q, neg),
        0 <= i < problem.n_free(),
        0 <= d < 3,
    ensures
        e.same(
            row_times(e, t.a@, d * problem.n_free() + i, q),
            e.of(problem.free_node_loads@.at(i, d)),
        ),
{
    let nf = problem.n_free() as int;
    let n = problem.topology.num_edges as int;
    let y = found_positions(ar, x, neg, problem.n_free());
    let cn = problem.topology.free_incidence@;
    let row = d * problem.n_free() + i;
    lemma_row_of_densities(e, ar, problem, x, axes, s, q, i, d);
    lemma_row_of_densities(e, ar, problem, y, axes, t, q, i, d);
    free_rows_hold_loads(
        ar,
        problem,
        x,
        EquilibriumUnknown::ForceDensity,
        axes,
        s,
        i,
        d,
    );
    let part = axis_part(neg, nf, d);
    let lap = laplacian(ar, problem, q);
    lemma_transposed_wf(cn);
    let weight = |c: int| entry(e, cn, c, i) * e.of(q[c]);
    let fx = |c: int|
        (entry(e, cn, c, i) * e.of(q[c])) * e.of(spans(ar, problem, x, d)[c]);
    let fy = |c: int|
        (entry(e, cn, c, i) * e.of(q[c])) * e.of(spans(ar, problem, y, d)[c]);
    let cross = |c: int, j: int| weight(c) * (entry(e, cn, c, j) * e.of(part[j]));
    let moved = |c: int| total_of(|j: int| cross(c, j), nf);
    let both = |c: int| 1 * fx(c) + (-1) * moved(c);
    assert forall|c: int| 0 <= c < n implies e.same(#[trigger] fy(c), both(c)) by {
        lemma_span_change(e, ar, problem, x, y, d, c);
        let change = |j: int| entry(e, cn, c, j) * (e.of(y.at(j, d)) - e.of(x.at(j, d)));
        let plain = |j: int| entry(e, cn, c, j) * e.of(part[j]);
        let opposite = |j: int| (-1) * plain(j) + 0 * plain(j);
        assert forall|j: int| 0 <= j < nf implies e.same(#[trigger] change(j), opposite(j)) by {
            let k = neg[d * nf + j];
            lemma_difference(e, ar, x.at(j, d), k);
            assert(y.at(j, d) == difference_of(ar, x.at(j, d), k));
            assert(part[j] == k);
            let (a, u, v, w) = (
                entry(e, cn, c, j),
                e.of(y.at(j, d)),
                e.of(x.at(j, d)),
                e.of(k),
            );
            lemma_nil_times(e, a, u - (v - w));
            assert(a * (u - (v - w)) == a * (u - v) - ((-1) * (a * w) + 0 * (a * w)))
                by (nonlinear_arith);
        }
        lemma_total_same(e, change, opposite, nf);
        lemma_total_linear(plain, plain, -1, 0, nf);
        let w = weight(c);
        let row_c = |j: int| cross(c, j);
        let scaled = |j: int| w * plain(j) + 0 * plain(j);
        assert forall|j: int| 0 <= j < nf implies #[trigger] row_c(j) == scaled(j) by {
            assert(0 * plain(j) == 0) by (nonlinear_arith);
        }
        lemma_total_equal(row_c, scaled, nf);
        lemma_total_linear(plain, plain, w, 0, nf);
        let (sx, sy, tc, tp) = (
            e.of(spans(ar, problem, x, d)[c]),
            e.of(spans(ar, problem, y, d)[c]),
            total_of(change, nf),
            total_of(plain, nf),
        );
        assert(0 * tp == 0) by (nonlinear_arith);
        lemma_nil_sum(e, (sy - sx) - tc, tc - (-1) * tp);
        lemma_nil_times(e, w, (sy - sx) - (-1) * tp);
        assert(w * ((sy - sx) - (-1) * tp) == w * sy - (1 * (w * sx) + (-1) * (w * tp)))
            by (nonlinear_arith);
    }
    lemma_total_same(e, fy, both, n);
    lemma_total_linear(fx, moved, 1, -1, n);
    lemma_total_swap(cross, n, nf);
    let cols = |j: int| total_of(|c: int| cross(c, j), n);
    let lrow = |j: int| entry(e, lap, i, j) * e.of(part[j]);
    assert forall|j: int| 0 <= j < nf implies e.same(#[trigger] lrow(j), cols(j)) by {
        laplacians_add_up_force_densities(e, ar, problem, q, i, j);
        let v = e.of(part[j]);
        let g = |c: int| entry(e, cn, c, i) * (e.of(q[c]) * entry(e, cn, c, j));
        let scaled = |c: int| v * g(c) + 0 * g(c);
        let col = |c: int| cross(c, j);
        assert forall|c: int| 0 <= c < n implies #[trigger] col(c) == scaled(c) by {
            let (a, b, k) = (entry(e, cn, c, i), e.of(q[c]), entry(e, cn, c, j));
            assert((a * b) * (k * v) == v * (a * (b * k)) + 0 * (a * (b * k)))
                by (nonlinear_arith);
        }
        lemma_total_equal(col, scaled, n);
        lemma_total_linear(g, g, v, 0, n);
        let (l, s1) = (entry(e, lap, i, j), total_of(g, n));
        assert(0 * s1 == 0) by (nonlinear_arith);
        lemma_nil_times(e, v, l - s1);
        assert(v * (l - s1) == l * v - v * s1) by (nonlinear_arith);
    }
    lemma_total_same(e, lrow, cols, nf);
    let (rx, ry, sx, sy, m, l) = (
        row_times(e, s.a@, row, q),
        row_times(e, t.a@, row, q),
        total_of(fx, n),
        total_of(fy, n),
        total_of(moved, n),
        row_times(e, lap, i, part),
    );
    let p = e.of(s.p@[row]);
    assert(e.same(l, rx - p));
    lemma_combine3(e, ry - sy, 1, ry - sy, 0, ry - sy, 0, ry - sy);
    lemma_combine3(e, ry - (sx - m), 1, ry - sy, 1, sy - (1 * sx + (-1) * m), 0, ry - sy);
    lemma_combine3(e, ry - (rx - l), 1, ry - (sx - m), -1, rx - sx, 1, l - m);
    lemma_combine(e, ry - p, 1, ry - (rx - l), -1, l - (rx - p));
}

/// The offsets lead from the target to the positions that are found.
pub proof fn offsets_lead_to_the_found_positions<A: Arithmetic>(
    e: Exact,
    ar: A,
    x: Grid,
    neg: Seq<Real>,
    n: nat,
    i: int,
    d: int,
)
    requires
        e.computes(ar),
        0 <= i < n,
        0 <= d < 3,
    ensures
        e.same(
            e.of(x.at(i, d)) + e.of(offsets(neg, n).at(i, d)),
            e.of(found_positions(ar, x, neg, n).at(i, d)),
        ),
{
    let k = neg[d * n + i];
    lemma_negated(e, ar, k);
    lemma_difference(e, ar, x.at(i, d), k);
    let (a, b, c, v) = (
        e.of(x.at(i, d)),
        e.of(offsets(neg, n).at(i, d)),
        e.of(found_positions(ar, x, neg, n).at(i, d)),
        e.of(k),
    );
    lemma_combine(e, (a + b) - c, 1, b - (-v), -1, c - (a - v));
}

proof fn lemma_total_triples(f: spec_fn(int) -> int, n: int)
    requires
        0 <= n,
    ensures
        total_of(f, 3 * n) == total_of(|i: int| f(3 * i) + f(3 * i + 1) + f(3 * i + 2), n),
    decreases n,
{
    if n > 0 {
        lemma_total_triples(f, n - 1);
        let g = |i: int| f(3 * i) + f(3 * i + 1) + f(3 * i + 2);
        assert(g(n - 1) == f(3 * (n - 1)) + f(3 * (n - 1) + 1) + f(3 * (n - 1) + 2));
        assert(total_of(f, 3 * n) == total_of(f, 3 * n - 1) + f(3 * n - 1));
        assert(total_of(f, 3 * n - 1) == total_of(f, 3 * n - 2) + f(3 * n - 2));
        assert(total_of(f, 3 * n - 2) == total_of(f, 3 * n - 3) + f(3 * n - 3));
    }
}

/// What the blocks of the axes put into row `i` of axis `a` and column `j` of axis `b`.
proof fn lemma_blocks_placed(e: Exact, d: Csc, n: int, a: int, i: int, b: int, j: int)
    requires
        d.wf(),
        d.nrows == n,
        d.ncols == n,
        3 * n <= u32::MAX,
        0 <= a < 3,
        0 <= b < 3,
        0 <= i < n,
        0 <= j < n,
    ensures
        placed(e, axis_blocks(d, n), a * n + i, b * n + j) == if a == b {
            entry(e, d, i, j)
        } else {
            0
        },
{
    let t = axis_blocks(d, n);
    let m = d.nnz() as int;
    let (row, col) = (a * n + i, b * n + j);
    let f = |l: int| placed_term(e, t, row, col, l);
    lemma_total_triples(f, m);
    let triple = |l: int| f(3 * l) + f(3 * l + 1) + f(3 * l + 2);
    let own = |l: int| entry_term(e, d, i, j, l);
    assert(0 * n == 0 && 1 * n == n && 2 * n == n + n) by (nonlinear_arith);
    assert forall|l: int| 0 <= l < m implies #[trigger] triple(l) == if a == b {
        own(l)
    } else {
        0
    } by {
        lemma_has_column(d, l);
        assert(d.rows[l] < d.nrows);
        assert((3 * l) / 3 == l && (3 * l) % 3 == 0);
        assert((3 * l + 1) / 3 == l && (3 * l + 1) % 3 == 1);
        assert((3 * l + 2) / 3 == l && (3 * l + 2) % 3 == 2);
        let (r, c) = (d.rows[l] as int, d.column_of(l));
        assert(t[3 * l] == (r as u32, c as u32, d.values[l]));
        assert(t[3 * l + 1] == ((n + r) as u32, (n + c) as u32, d.values[l]));
        assert(t[3 * l + 2] == ((2 * n + r) as u32, (2 * n + c) as u32, d.values[l]));
        if a == 0 {
        } else if a == 1 {
        } else {
            assert(a == 2);
        }
        if b == 0 {
        } else if b == 1 {
        } else {
            assert(b == 2);
        }
    }
    if a == b {
        lemma_total_equal(triple, own, m);
    } else {
        lemma_total_zero(triple, m);
    }
}

/// The weight `S` has the Laplacian once for each axis: its row of node `i` and axis `a`
/// times a vector is row `i` of the Laplacian times that axis of the vector.
pub proof fn weights_hold_the_laplacian_for_each_axis<A: Arithmetic>(
    e: Exact,
    ar: A,
    d: Csc,
    n_eq: nat,
    n: nat,
    y: Seq<Real>,
    a: int,
    i: int,
)
    requires
        e.computes(ar),
        d.wf(),
        d.nrows == n,
        d.ncols == n,
        3 * n <= n_eq <= u32::MAX,
        assembled(ar, n_eq, n_eq, weight_terms(d, n_eq, n)).wf(),
        0 <= a < 3,
        0 <= i < n,
    ensures
        e.same(
            row_times(
                e,
                assembled(ar, n_eq, n_eq, weight_terms(d, n_eq, n)),
                a * n + i,
                y,
            ),
            row_times(e, d, i, axis_part(y, n as int, a)),
        ),
{
    let s = assembled(ar, n_eq, n_eq, weight_terms(d, n_eq, n));
    let m = n as int;
    let row = a * m + i;
    let part = axis_part(y, m, a);
    assert(0 * m == 0 && 1 * m == m && 2 * m == m + m && 0 <= a * m && a * m + m <= 3 * m)
        by (nonlinear_arith)
        requires
            0 <= a < 3,
            0 <= m,
    ;
    let one = diagonal_from(3 * m, (n_eq - 3 * n) as nat, Real { bits: ONE });
    let f = |c: int| entry(e, s, row, c) * e.of(y[c]);
    let g = |c: int|
        if a * m <= c < a * m + m {
            entry(e, d, i, c - a * m) * e.of(y[c])
        } else {
            0
        };
    assert forall|c: int| 0 <= c < n_eq implies e.same(#[trigger] f(c), g(c)) by {
        assembling_adds_up(e, ar, n_eq, n_eq, weight_terms(d, n_eq, n), row, c);
        lemma_placed_joined(e, axis_blocks(d, m), one, row, c);
        lemma_diagonal_placed(e, one, 3 * m, Real { bits: ONE }, row, c);
        let v = e.of(y[c]);
        let k = entry(e, s, row, c);
        if c < m {
            lemma_blocks_placed(e, d, m, a, i, 0, c);
        } else if c < 2 * m {
            lemma_blocks_placed(e, d, m, a, i, 1, c - m);
        } else if c < 3 * m {
            lemma_blocks_placed(e, d, m, a, i, 2, c - 2 * m);
        } else {
            lemma_nothing_below(e, d, m, row, c);
        }
        let own = if a * m <= c < a * m + m {
            entry(e, d, i, c - a * m)
        } else {
            0
        };
        if a == 0 {
        } else if a == 1 {
        } else {
            assert(a == 2);
        }
        assert(e.same(k, own));
        lemma_nil_times(e, v, k - own);
        assert(v * (k - own) == k * v - own * v) by (nonlinear_arith);
        assert(0 * v == 0) by (nonlinear_arith);
    }
    lemma_total_same(e, f, g, n_eq as int);
    let rest = n_eq - a * m - m;
    lemma_total_split(g, a * m, m + rest);
    let after = |c: int| g(a * m + c);
    lemma_total_split(after, m, rest);
    let last = |c: int| after(m + c);
    lemma_total_zero(g, a * m);
    lemma_total_zero(last, rest);
    let plain = |c: int| entry(e, d, i, c) * e.of(part[c]);
    assert forall|c: int| 0 <= c < m implies #[trigger] after(c) == plain(c) by {}
    lemma_total_equal(after, plain, m);
}

proof fn lemma_nothing_below(e: Exact, d: Csc, n: int, row: int, col: int)
    requires
        d.wf(),
        d.nrows == n,
        d.ncols == n,
        3 * n <= u32::MAX,
        col >= 3 * n,
    ensures
        placed(e, axis_blocks(d, n), row, col) == 0,
{
    let t = axis_blocks(d, n);
    let f = |l: int| placed_term(e, t, row, col, l);
    assert forall|l: int| 0 <= l < t.len() implies #[trigger] f(l) == 0 by {
        let i = l / 3;
        lemma_has_column(d, i);
        assert(d.rows[i] < d.nrows);
        let k = l % 3;
        assert(0 <= k * n && k * n + n <= 3 * n) by (nonlinear_arith)
            requires
                0 <= k < 3,
                0 <= n,
        ;
    }
    lemma_total_zero(f, t.len() as int);
}

/// What undoes a weight: where the columns of `x` solve the blocks of the Laplacian for the
/// axes of `r`, the weight times what is made of them is `r`, in every row of a free node;
/// the other rows pass unchanged.
pub proof fn weights_are_undone<A: Arithmetic>(
    e: Exact,
    ar: A,
    d: Csc,
    n_eq: nat,
    n: nat,
    x: Grid,
    r: Seq<Real>,
    a: int,
    i: int,
)
    requires
        e.computes(ar),
        d.wf(),
        d.nrows == n,
        d.ncols == n,
        3 * n <= n_eq <= u32::MAX,
        r.len() == n_eq,
        x.rows == n,
        assembled(ar, n_eq, n_eq, weight_terms(d, n_eq, n)).wf(),
        0 <= a < 3,
        0 <= i < n,
        e.same(row_times(e, d, i, column(x, a)), e.of(r[a * n + i])),
    ensures
        e.same(
            row_times(
                e,
                assembled(ar, n_eq, n_eq, weight_terms(d, n_eq, n)),
                a * n + i,
                unweighted(x, r, n as int),
            ),
            e.of(r[a * n + i]),
        ),
        forall|k: int| 3 * n <= k < n_eq ==> #[trigger] unweighted(x, r, n as int)[k] == r[k],
{
    let y = unweighted(x, r, n as int);
    weights_hold_the_laplacian_for_each_axis(e, ar, d, n_eq, n, y, a, i);
    let m = n as int;
    let part = axis_part(y, m, a);
    let col = column(x, a);
    assert forall|k: int| 0 <= k < m implies #[trigger] part[k] == col[k] by {
        assert(0 <= a * m && a * m + m <= 3 * m) by (nonlinear_arith)
            requires
                0 <= a < 3,
                0 <= m,
        ;
        vstd::arithmetic::div_mod::lemma_fundamental_div_mod_converse(a * m + k, m, a, k);
    }
    assert(part =~= col);
    lemma_same_trans(
        e,
        row_times(e, assembled(ar, n_eq, n_eq, weight_terms(d, n_eq, n)), a * n + i, y),
        row_times(e, d, i, col),
        e.of(r[a * n + i]),
    );
}

} // verus!
