//! How member lengths follow the positions of free nodes.

use crate::arithmetic::{functional, product_of, Arithmetic};
use crate::array::Grid;
use crate::balance::free_rows_hold_directions;
use crate::double::{Real, TWO};
use crate::entries::{
    column_times, entry, entry_term, lemma_entry_in_column, lemma_same_columns,
    rows_are_multiplied_and_added,
};
use crate::equilibrium::{
    coordinates, describes, directions, lengths_of, loads_of, scattered, spans, EquilibriumSystem,
    EquilibriumUnknown,
};
use crate::exact::{
    lemma_combine, lemma_combine3, lemma_constants, lemma_nil_sum, lemma_nil_times, lemma_nil_zero,
    lemma_product, lemma_quotient, lemma_same_trans, lemma_sum_product, lemma_total_equal,
    lemma_total_linear, lemma_total_same, lemma_total_single, lemma_total_split, lemma_total_swap,
    lemma_total_zero, total_of, Exact,
};
use crate::retraction::{column_scaled, jacobian_transpose_of, moved_positions};
use crate::sparse::{column_list, extracted, joined, lemma_packed_column, Csc};
use crate::turning::lemma_swap_factors;
use crate::types::Problem;
use vstd::prelude::*;

verus! {

/// A matrix whose columns are scaled has in column `j` the numbers of that column times its
/// scale.
pub proof fn column_scaling_multiplies_columns<A: Arithmetic>(
    e: Exact,
    ar: A,
    m: Csc,
    scales: Seq<Real>,
    i: int,
    j: int,
)
    requires
        e.computes(ar),
        m.wf(),
    ensures
        e.same(
            entry(e, column_scaled(ar, m, scales), i, j),
            entry(e, m, i, j) * e.of(scales[j]),
        ),
{
    let s = column_scaled(ar, m, scales);
    let n = m.nnz() as int;
    let f = |l: int| entry_term(e, s, i, j, l);
    let g = |l: int| entry_term(e, m, i, j, l);
    let c = e.of(scales[j]);
    let h = |l: int| c * g(l) + 0 * g(l);
    assert forall|l: int| 0 <= l < n implies e.same(#[trigger] f(l), h(l)) by {
        lemma_same_columns(m, s, l);
        let v = e.of(m.values[l]);
        lemma_product(e, ar, m.values[l], scales[m.column_of(l)]);
        assert(c * v + 0 * v == v * c) by (nonlinear_arith);
        assert(c * 0 + 0 * 0 == 0) by (nonlinear_arith);
        lemma_nil_zero(e);
    }
    lemma_total_same(e, f, h, n);
    lemma_total_linear(g, g, c, 0, n);
    let t = total_of(g, n);
    assert(c * t + 0 * t == t * c) by (nonlinear_arith);
}

/// Whether every free node is listed once, no fixed node is among them, and the incidence
/// of the free nodes is that of the network.
pub open spec fn well_placed(problem: Problem) -> bool {
    let t = problem.topology;
    &&& t.free_node_indices@.no_duplicates()
    &&& forall|i: int, j: int|
        0 <= i < t.free_node_indices@.len() && 0 <= j < t.fixed_node_indices@.len()
            ==> #[trigger] t.free_node_indices@[i] != #[trigger] t.fixed_node_indices@[j]
    &&& t.free_incidence@ == extracted(t.incidence@, t.free_node_indices@)
}

proof fn lemma_scattered(
    base: Seq<Real>,
    indices: Seq<usize>,
    g: Grid,
    d: int,
    k: int,
    node: int,
)
    requires
        0 <= k <= indices.len(),
        0 <= node < base.len(),
        forall|i: int| 0 <= i < indices.len() ==> #[trigger] indices[i] < base.len(),
    ensures
        scattered(base, indices, g, d, k).len() == base.len(),
        (forall|i: int| 0 <= i < k ==> #[trigger] indices[i] != node) ==> scattered(
            base,
            indices,
            g,
            d,
            k,
        )[node] == base[node],
        forall|i: int|
            0 <= i < k && indices.no_duplicates() && #[trigger] indices[i] == node ==> scattered(
                base,
                indices,
                g,
                d,
                k,
            )[node] == g.at(i, d),
    decreases k,
{
    if k > 0 {
        lemma_scattered(base, indices, g, d, k - 1, node);
        assert(indices[k - 1] < base.len());
    }
}

proof fn lemma_scattered_alike(
    a: Seq<Real>,
    b: Seq<Real>,
    indices: Seq<usize>,
    g: Grid,
    d: int,
    k: int,
    node: int,
)
    requires
        0 <= k <= indices.len(),
        a.len() == b.len(),
        0 <= node < a.len(),
        a[node] == b[node],
        forall|i: int| 0 <= i < indices.len() ==> #[trigger] indices[i] < a.len(),
    ensures
        scattered(a, indices, g, d, k)[node] == scattered(b, indices, g, d, k)[node],
    decreases k,
{
    if k > 0 {
        lemma_scattered_alike(a, b, indices, g, d, k - 1, node);
        lemma_scattered(a, indices, g, d, k - 1, node);
        lemma_scattered(b, indices, g, d, k - 1, node);
        assert(indices[k - 1] < a.len());
    }
}

/// Free nodes stand where the grid puts them, and the others stay where they are.
proof fn lemma_coordinates(problem: Problem, x: Grid, y: Grid, d: int, node: int)
    requires
        problem.wf(),
        well_placed(problem),
        0 <= node < problem.topology.num_nodes,
    ensures
        coordinates(problem, x, d).len() == problem.topology.num_nodes,
        forall|i: int|
            0 <= i < problem.n_free() && #[trigger] problem.topology.free_node_indices@[i] == node
                ==> coordinates(problem, x, d)[node] == x.at(i, d),
        (forall|i: int|
            0 <= i < problem.n_free() ==> #[trigger] problem.topology.free_node_indices@[i] != node)
            ==> coordinates(problem, x, d)[node] == coordinates(problem, y, d)[node],
{
    let topo = problem.topology;
    let nowhere = Seq::new(topo.num_nodes as nat, |i: int| Real { bits: crate::double::ZERO });
    let free = topo.free_node_indices@;
    let fixed = topo.fixed_node_indices@;
    let n = free.len() as int;
    let m = fixed.len() as int;
    lemma_scattered(nowhere, free, x, d, n, node);
    lemma_scattered(nowhere, free, y, d, n, node);
    let fx = scattered(nowhere, free, x, d, n);
    let fy = scattered(nowhere, free, y, d, n);
    lemma_scattered(fx, fixed, problem.fixed_node_positions@, d, m, node);
    if forall|i: int| 0 <= i < n ==> #[trigger] free[i] != node {
        lemma_scattered_alike(fx, fy, fixed, problem.fixed_node_positions@, d, m, node);
    }
}

/// A total over indices that are listed once, of terms that vanish elsewhere.
pub(crate) proof fn lemma_total_listed(f: spec_fn(int) -> int, list: Seq<usize>, n: int)
    requires
        0 <= n,
        list.no_duplicates(),
        forall|i: int| 0 <= i < list.len() ==> #[trigger] list[i] < n,
        forall|k: int|
            0 <= k < n && (forall|i: int| 0 <= i < list.len() ==> #[trigger] list[i] != k)
                ==> #[trigger] f(k) == 0,
    ensures
        total_of(f, n) == total_of(|i: int| f(list[i] as int), list.len() as int),
{
    let m = list.len() as int;
    let c = |i: int, k: int|
        if list[i] == k {
            f(k)
        } else {
            0
        };
    let left = |i: int| f(list[i] as int);
    let rows = |i: int| total_of(|k: int| c(i, k), n);
    assert forall|i: int| 0 <= i < m implies #[trigger] left(i) == rows(i) by {
        assert(list[i] < n);
        let row = |k: int| c(i, k);
        lemma_total_single(row, n, list[i] as int);
    }
    lemma_total_equal(left, rows, m);
    lemma_total_swap(c, m, n);
    let cols = |k: int| total_of(|i: int| c(i, k), m);
    assert forall|k: int| 0 <= k < n implies #[trigger] cols(k) == f(k) by {
        let col = |i: int| c(i, k);
        if exists|i: int| 0 <= i < m && #[trigger] list[i] == k {
            let i = choose|i: int| 0 <= i < m && #[trigger] list[i] == k;
            assert forall|j: int| 0 <= j < m && j != i implies #[trigger] col(j) == 0 by {}
            lemma_total_single(col, m, i);
        } else {
            assert forall|j: int| 0 <= j < m implies #[trigger] col(j) == 0 by {}
            lemma_total_zero(col, m);
        }
    }
    lemma_total_equal(cols, f, n);
}

pub(crate) proof fn lemma_free_incidence(e: Exact, problem: Problem, c: int, i: int)
    requires
        problem.wf(),
        well_placed(problem),
        0 <= i < problem.n_free(),
    ensures
        entry(e, problem.topology.free_incidence@, c, i) == entry(
            e,
            problem.topology.incidence@,
            c,
            problem.topology.free_node_indices@[i] as int,
        ),
{
    let m = problem.topology.incidence@;
    let columns = problem.topology.free_node_indices@;
    let s = problem.topology.free_incidence@;
    let lists = Seq::new(columns.len(), |j: int| column_list(m, columns[j] as int));
    assert(s.starts[s.ncols as int] == joined(lists, lists.len() as int).len());
    lemma_packed_column(m.nrows, lists, i);
    lemma_entry_in_column(e, s, c, i);
    lemma_entry_in_column(e, m, c, columns[i] as int);
}

/// The span of an edge changes by the incidences of its free nodes times what these move.
pub(crate) proof fn lemma_span_change<A: Arithmetic>(
    e: Exact,
    ar: A,
    problem: Problem,
    x: Grid,
    y: Grid,
    d: int,
    c: int,
)
    requires
        e.computes(ar),
        problem.wf(),
        well_placed(problem),
        0 <= c < problem.topology.num_edges,
    ensures
        e.same(
            e.of(spans(ar, problem, y, d)[c]) - e.of(spans(ar, problem, x, d)[c]),
            total_of(
                |i: int|
                    entry(e, problem.topology.free_incidence@, c, i) * (e.of(y.at(i, d)) - e.of(
                        x.at(i, d),
                    )),
                problem.n_free() as int,
            ),
        ),
{
    let m = problem.topology.incidence@;
    let free = problem.topology.free_node_indices@;
    let n = problem.topology.num_nodes as int;
    let (cx, cy) = (coordinates(problem, x, d), coordinates(problem, y, d));
    rows_are_multiplied_and_added(e, ar, m, cx, c);
    rows_are_multiplied_and_added(e, ar, m, cy, c);
    let fx = |k: int| entry(e, m, c, k) * e.of(cx[k]);
    let fy = |k: int| entry(e, m, c, k) * e.of(cy[k]);
    let apart = |k: int| 1 * fy(k) + (-1) * fx(k);
    lemma_total_linear(fy, fx, 1, -1, n);
    assert forall|k: int|
        0 <= k < n && (forall|i: int| 0 <= i < free.len() ==> #[trigger] free[i] != k) implies
        #[trigger] apart(k) == 0 by {
        lemma_coordinates(problem, x, y, d, k);
    }
    lemma_total_listed(apart, free, n);
    let listed = |i: int| apart(free[i] as int);
    let goal = |i: int|
        entry(e, problem.topology.free_incidence@, c, i) * (e.of(y.at(i, d)) - e.of(x.at(i, d)));
    assert forall|i: int| 0 <= i < free.len() implies #[trigger] listed(i) == goal(i) by {
        let k = free[i] as int;
        lemma_coordinates(problem, x, y, d, k);
        lemma_coordinates(problem, y, x, d, k);
        lemma_free_incidence(e, problem, c, i);
        let (a, u, v) = (entry(e, m, c, k), e.of(cy[k]), e.of(cx[k]));
        assert(1 * (a * u) + (-1) * (a * v) == a * (u - v)) by (nonlinear_arith);
    }
    lemma_total_equal(listed, goal, free.len() as int);
    let (sy, sx) = (e.of(spans(ar, problem, y, d)[c]), e.of(spans(ar, problem, x, d)[c]));
    lemma_nil_sum(e, sy - total_of(fy, n), sx - total_of(fx, n));
}

/// What a correction stretches edge `c` along axis `d`, to first order: the incidences of
/// its free nodes times their entries of the correction, which stand in the rows of these
/// nodes and this axis.
pub open spec fn stretch(e: Exact, problem: Problem, correction: Seq<Real>, d: int, c: int) -> int {
    total_of(
        |i: int|
            entry(e, problem.topology.free_incidence@, c, i) * e.of(
                correction[d * problem.n_free() + i],
            ),
        problem.n_free() as int,
    )
}

/// The square of the length of an edge.
pub open spec fn squared_length<A: Arithmetic>(
    e: Exact,
    ar: A,
    problem: Problem,
    x: Grid,
    c: int,
) -> int {
    total_of(
        |d: int| e.of(spans(ar, problem, x, d)[c]) * e.of(spans(ar, problem, x, d)[c]),
        3,
    )
}

pub(crate) proof fn lemma_three(f: spec_fn(int) -> int)
    ensures
        total_of(f, 3) == f(0) + f(1) + f(2),
{
    reveal_with_fuel(total_of, 4);
}

/// Moving a node by a correction moves it by the entries of the correction that stand in
/// its own rows.
proof fn lemma_moved<A: Arithmetic>(
    e: Exact,
    ar: A,
    problem: Problem,
    x: Grid,
    correction: Seq<Real>,
    step: Real,
    d: int,
    c: int,
)
    requires
        e.computes(ar),
        problem.wf(),
        well_placed(problem),
        x.rows == problem.n_free(),
        0 <= c < problem.topology.num_edges,
        0 <= d < 3,
    ensures
        ({
            let y = moved_positions(ar, x, correction, step);
            e.same(
                e.of(spans(ar, problem, y, d)[c]),
                e.of(spans(ar, problem, x, d)[c]) + e.of(step) * stretch(
                    e,
                    problem,
                    correction,
                    d,
                    c,
                ),
            )
        }),
{
    let y = moved_positions(ar, x, correction, step);
    let n = problem.n_free() as int;
    lemma_span_change(e, ar, problem, x, y, d, c);
    let f = |i: int|
        entry(e, problem.topology.free_incidence@, c, i) * (e.of(y.at(i, d)) - e.of(x.at(i, d)));
    let g = |i: int|
        entry(e, problem.topology.free_incidence@, c, i) * e.of(
            correction[d * problem.n_free() + i],
        );
    let h = |i: int| e.of(step) * g(i) + 0 * g(i);
    assert forall|i: int| 0 <= i < n implies e.same(#[trigger] f(i), h(i)) by {
        let k = correction[d * problem.n_free() + i];
        lemma_sum_product(e, ar, x.at(i, d), step, k);
        let (a, b, t, u, v) = (
            entry(e, problem.topology.free_incidence@, c, i),
            e.of(y.at(i, d)),
            e.of(x.at(i, d)),
            e.of(step),
            e.of(k),
        );
        assert(a * (b - t) - (u * (a * v) + 0 * (a * v)) == a * (b - (t + u * v)))
            by (nonlinear_arith);
        lemma_nil_times(e, a, b - (t + u * v));
    }
    lemma_total_same(e, f, h, n);
    lemma_total_linear(g, g, e.of(step), 0, n);
    let t = total_of(g, n);
    assert(0 * t == 0) by (nonlinear_arith);
    let (sy, sx) = (e.of(spans(ar, problem, y, d)[c]), e.of(spans(ar, problem, x, d)[c]));
    lemma_nil_sum(e, (sy - sx) - total_of(f, n), total_of(f, n) - e.of(step) * t);
}

/// Column `c` of the transposed Jacobian times a correction is twice the sum, over the
/// axes, of the span of the edge times what the correction stretches it.
proof fn lemma_jacobian<A: Arithmetic>(
    e: Exact,
    ar: A,
    problem: Problem,
    x: Grid,
    s: EquilibriumSystem,
    correction: Seq<Real>,
    c: int,
)
    requires
        functional(ar),
        e.computes(ar),
        problem.wf(),
        describes(s, ar, problem, x, EquilibriumUnknown::Force, Seq::empty()),
        0 <= c < problem.topology.num_edges,
        e.unit(e.of(lengths_of(ar, problem, x)[c])),
    ensures
        e.same(
            column_times(e, jacobian_transpose_of(ar, s), c, correction),
            total_of(
                |d: int|
                    2 * e.of(spans(ar, problem, x, d)[c]) * stretch(e, problem, correction, d, c),
                3,
            ),
        ),
{
    let n = problem.n_free() as int;
    let j = jacobian_transpose_of(ar, s);
    let none = Seq::<int>::empty();
    assert(none.len() * problem.n_fixed() == 0) by (nonlinear_arith)
        requires
            none.len() == 0,
    ;
    assert(s.n_eq == 3 * n);
    let f = |row: int| entry(e, j, row, c) * e.of(correction[row]);
    let first = |k: int| f(n + k);
    let second = |k: int| first(n + k);
    lemma_total_split(f, n, 2 * n);
    lemma_total_split(first, n, n);
    let goal = |d: int|
        2 * e.of(spans(ar, problem, x, d)[c]) * stretch(e, problem, correction, d, c);
    lemma_three(goal);
    assert forall|d: int| 0 <= d < 3 implies e.same(
        total_of(#[trigger] block(f, d * n), n),
        goal(d),
    ) by {
        lemma_jacobian_block(e, ar, problem, x, s, correction, c, d);
        let g = |k: int| entry(e, j, d * n + k, c) * e.of(correction[d * problem.n_free() + k]);
        lemma_total_equal(block(f, d * n), g, n);
    }
    assert(0 * n == 0 && 1 * n == n && 2 * n == n + n) by (nonlinear_arith);
    assert(e.same(total_of(block(f, 0 * n), n), goal(0)));
    assert(e.same(total_of(block(f, 1 * n), n), goal(1)));
    assert(e.same(total_of(block(f, 2 * n), n), goal(2)));
    lemma_total_equal(block(f, 0 * n), f, n);
    lemma_total_equal(block(f, 1 * n), first, n);
    lemma_total_equal(block(f, 2 * n), second, n);
    let (t0, t1, t2) = (total_of(f, n), total_of(first, n), total_of(second, n));
    lemma_combine3(
        e,
        (t0 + t1 + t2) - (goal(0) + goal(1) + goal(2)),
        1,
        t0 - goal(0),
        1,
        t1 - goal(1),
        1,
        t2 - goal(2),
    );
}

/// A function, read from `from` on.
spec fn block(f: spec_fn(int) -> int, from: int) -> spec_fn(int) -> int {
    |k: int| f(from + k)
}

proof fn lemma_jacobian_block<A: Arithmetic>(
    e: Exact,
    ar: A,
    problem: Problem,
    x: Grid,
    s: EquilibriumSystem,
    correction: Seq<Real>,
    c: int,
    d: int,
)
    requires
        functional(ar),
        e.computes(ar),
        problem.wf(),
        describes(s, ar, problem, x, EquilibriumUnknown::Force, Seq::empty()),
        0 <= c < problem.topology.num_edges,
        0 <= d < 3,
        e.unit(e.of(lengths_of(ar, problem, x)[c])),
    ensures
        e.same(
            total_of(
                |k: int|
                    entry(e, jacobian_transpose_of(ar, s), d * problem.n_free() + k, c) * e.of(
                        correction[d * problem.n_free() + k],
                    ),
                problem.n_free() as int,
            ),
            2 * e.of(spans(ar, problem, x, d)[c]) * stretch(e, problem, correction, d, c),
        ),
{
    let n = problem.n_free() as int;
    let j = jacobian_transpose_of(ar, s);
    let scales = Seq::new(
        s.n_edges as nat,
        |k: int| product_of(ar, Real { bits: TWO }, s.lengths@[k]),
    );
    let length = lengths_of(ar, problem, x)[c];
    let span = spans(ar, problem, x, d)[c];
    let dir = directions(ar, problem, x, EquilibriumUnknown::Force, d)[c];
    lemma_constants(e, ar);
    lemma_product(e, ar, Real { bits: TWO }, length);
    lemma_quotient(e, ar, span, length);
    let (two, l, sp, di, sc) = (
        e.of(Real { bits: TWO }),
        e.of(length),
        e.of(span),
        e.of(dir),
        e.of(scales[c]),
    );
    // dir * (2 L) ~ 2 span
    assert(di * sc - 2 * sp == di * (sc - two * l) + (di * l) * (two - 2) + 2 * (di * l - sp))
        by (nonlinear_arith);
    lemma_combine3(
        e,
        di * sc - 2 * sp,
        di,
        sc - two * l,
        di * l,
        two - 2,
        2,
        di * l - sp,
    );
    let f = |k: int|
        entry(e, j, d * problem.n_free() + k, c) * e.of(correction[d * problem.n_free() + k]);
    let g = |k: int|
        entry(e, problem.topology.free_incidence@, c, k) * e.of(
            correction[d * problem.n_free() + k],
        );
    let h = |k: int| (2 * sp) * g(k) + 0 * g(k);
    assert forall|k: int| 0 <= k < n implies e.same(#[trigger] f(k), h(k)) by {
        free_rows_hold_directions(
            e,
            ar,
            problem,
            x,
            EquilibriumUnknown::Force,
            Seq::empty(),
            s,
            k,
            d,
            c,
        );
        let row = d * problem.n_free() + k;
        column_scaling_multiplies_columns(e, ar, s.a@, scales, row, c);
        let (jj, aa, inc, cor) = (
            entry(e, j, row, c),
            entry(e, s.a@, row, c),
            entry(e, problem.topology.free_incidence@, c, k),
            e.of(correction[row]),
        );
        lemma_nil_zero(e);
        lemma_swap_factors(e, aa, inc * di, sc, sc);
        lemma_swap_factors(e, inc, inc, di * sc, 2 * sp);
        assert((inc * di) * sc == inc * (di * sc)) by (nonlinear_arith);
        lemma_same_trans(e, jj, aa * sc, (inc * di) * sc);
        lemma_same_trans(e, jj, inc * (di * sc), inc * (2 * sp));
        lemma_swap_factors(e, jj, inc * (2 * sp), cor, cor);
        assert((inc * (2 * sp)) * cor == (2 * sp) * (inc * cor) + 0 * (inc * cor))
            by (nonlinear_arith);
    }
    lemma_total_same(e, f, h, n);
    lemma_total_linear(g, g, 2 * sp, 0, n);
    let t = total_of(g, n);
    assert((2 * sp) * t + 0 * t == (2 * sp) * t) by (nonlinear_arith);
}

/// Moving by a step along a correction changes the square of the length of every edge by
/// the step times what the Jacobian makes of the correction, and by a share of second order
/// in the step.
pub proof fn squared_lengths_follow_the_jacobian<A: Arithmetic>(
    e: Exact,
    ar: A,
    problem: Problem,
    x: Grid,
    s: EquilibriumSystem,
    correction: Seq<Real>,
    step: Real,
    c: int,
)
    requires
        functional(ar),
        e.computes(ar),
        problem.wf(),
        well_placed(problem),
        x.rows == problem.n_free(),
        describes(s, ar, problem, x, EquilibriumUnknown::Force, Seq::empty()),
        0 <= c < problem.topology.num_edges,
        e.unit(e.of(lengths_of(ar, problem, x)[c])),
    ensures
        e.same(
            squared_length(e, ar, problem, moved_positions(ar, x, correction, step), c),
            squared_length(e, ar, problem, x, c) + e.of(step) * column_times(
                e,
                jacobian_transpose_of(ar, s),
                c,
                correction,
            ) + e.of(step) * e.of(step) * total_of(
                |d: int| stretch(e, problem, correction, d, c) * stretch(
                    e,
                    problem,
                    correction,
                    d,
                    c,
                ),
                3,
            ),
        ),
{
    let y = moved_positions(ar, x, correction, step);
    let t = e.of(step);
    let fy = |d: int| e.of(spans(ar, problem, y, d)[c]) * e.of(spans(ar, problem, y, d)[c]);
    let fx = |d: int| e.of(spans(ar, problem, x, d)[c]) * e.of(spans(ar, problem, x, d)[c]);
    let fj = |d: int|
        2 * e.of(spans(ar, problem, x, d)[c]) * stretch(e, problem, correction, d, c);
    let fs = |d: int|
        stretch(e, problem, correction, d, c) * stretch(e, problem, correction, d, c);
    let linear = |d: int| t * fj(d) + (t * t) * fs(d);
    let both = |d: int| 1 * fx(d) + 1 * linear(d);
    assert forall|d: int| 0 <= d < 3 implies e.same(#[trigger] fy(d), both(d)) by {
        lemma_moved(e, ar, problem, x, correction, step, d, c);
        let (a, b, k) = (
            e.of(spans(ar, problem, y, d)[c]),
            e.of(spans(ar, problem, x, d)[c]),
            stretch(e, problem, correction, d, c),
        );
        lemma_swap_factors(e, a, b + t * k, a, b + t * k);
        assert((b + t * k) * (b + t * k) == 1 * (b * b) + 1 * (t * (2 * b * k) + (t * t) * (k
            * k))) by (nonlinear_arith);
    }
    lemma_total_same(e, fy, both, 3);
    lemma_total_linear(fx, linear, 1, 1, 3);
    lemma_total_linear(fj, fs, t, t * t, 3);
    lemma_jacobian(e, ar, problem, x, s, correction, c);
    let jc = column_times(e, jacobian_transpose_of(ar, s), c, correction);
    let (u, v, w, z) = (total_of(fy, 3), total_of(fx, 3), total_of(fj, 3), total_of(fs, 3));
    assert(u - (v + t * jc + t * t * z) == 1 * (u - (v + (t * w + (t * t) * z))) + (-t) * (jc - w))
        by (nonlinear_arith);
    lemma_combine(
        e,
        u - (v + t * jc + t * t * z),
        1,
        u - (v + (t * w + (t * t) * z)),
        -t,
        jc - w,
    );
}

/// The loads do work along a move as the rows of the system tell: the work of all loads is
/// the step times the product of the right-hand side and the correction.
pub proof fn moves_do_the_work_of_the_loads<A: Arithmetic>(
    e: Exact,
    ar: A,
    problem: Problem,
    x: Grid,
    correction: Seq<Real>,
    step: Real,
)
    requires
        e.computes(ar),
        x.rows == problem.n_free(),
    ensures
        e.same(
            e.of(step) * total_of(
                |row: int|
                    e.of(loads_of(problem, 3 * problem.n_free())[row]) * e.of(correction[row]),
                3 * problem.n_free() as int,
            ),
            total_of(
                |d: int|
                    total_of(
                        |i: int|
                            e.of(problem.free_node_loads@.at(i, d)) * (e.of(
                                moved_positions(ar, x, correction, step).at(i, d),
                            ) - e.of(x.at(i, d))),
                        problem.n_free() as int,
                    ),
                3,
            ),
        ),
{
    let n = problem.n_free() as int;
    let y = moved_positions(ar, x, correction, step);
    let p = loads_of(problem, 3 * problem.n_free());
    let t = e.of(step);
    let f = |row: int| e.of(p[row]) * e.of(correction[row]);
    let first = |k: int| f(n + k);
    let second = |k: int| first(n + k);
    lemma_total_split(f, n, 2 * n);
    lemma_total_split(first, n, n);
    let work = |d: int|
        total_of(
            |i: int|
                e.of(problem.free_node_loads@.at(i, d)) * (e.of(y.at(i, d)) - e.of(x.at(i, d))),
            n,
        );
    lemma_three(work);
    assert(0 * n == 0 && 1 * n == n && 2 * n == n + n) by (nonlinear_arith);
    assert forall|d: int| 0 <= d < 3 implies e.same(
        t * total_of(#[trigger] block(f, d * n), n),
        work(d),
    ) by {
        let b = block(f, d * n);
        let scaled = |i: int| t * b(i) + 0 * b(i);
        let own = |i: int|
            e.of(problem.free_node_loads@.at(i, d)) * (e.of(y.at(i, d)) - e.of(x.at(i, d)));
        assert forall|i: int| 0 <= i < n implies e.same(#[trigger] scaled(i), own(i)) by {
            let row = d * n + i;
            assert(0 <= d * n && d * n + n <= 3 * n) by (nonlinear_arith)
                requires
                    0 <= d < 3,
                    0 <= n,
            ;
            vstd::arithmetic::div_mod::lemma_fundamental_div_mod_converse(row, n, d, i);
            let k = correction[row];
            assert(d * x.rows == d * n);
            lemma_sum_product(e, ar, x.at(i, d), step, k);
            let (a, u, v, w) = (
                e.of(problem.free_node_loads@.at(i, d)),
                e.of(y.at(i, d)),
                e.of(x.at(i, d)),
                e.of(k),
            );
            assert((t * (a * w) + 0 * (a * w)) - a * (u - v) == (-a) * (u - (v + t * w)))
                by (nonlinear_arith);
            lemma_nil_times(e, -a, u - (v + t * w));
        }
        lemma_total_same(e, scaled, own, n);
        lemma_total_linear(b, b, t, 0, n);
        let s = total_of(b, n);
        assert(t * s + 0 * s == t * s) by (nonlinear_arith);
    }
    assert(e.same(t * total_of(block(f, 0 * n), n), work(0)));
    assert(e.same(t * total_of(block(f, 1 * n), n), work(1)));
    assert(e.same(t * total_of(block(f, 2 * n), n), work(2)));
    lemma_total_equal(block(f, 0 * n), f, n);
    lemma_total_equal(block(f, 1 * n), first, n);
    lemma_total_equal(block(f, 2 * n), second, n);
    let (t0, t1, t2) = (total_of(f, n), total_of(first, n), total_of(second, n));
    assert(t * (t0 + (t1 + t2)) == t * t0 + t * t1 + t * t2) by (nonlinear_arith);
    lemma_combine3(
        e,
        (t * t0 + t * t1 + t * t2) - (work(0) + work(1) + work(2)),
        1,
        t * t0 - work(0),
        1,
        t * t1 - work(1),
        1,
        t * t2 - work(2),
    );
}

} // verus!
