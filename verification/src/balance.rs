//! What the rows of an equilibrium system say of a network.

use crate::arithmetic::{functional, Arithmetic};
use crate::array::Grid;
use crate::double::Real;
use crate::entries::{
    assembling_adds_up, entry, entry_term, lemma_placed_joined, placed, placed_term,
    transposing_exchanges_rows_and_columns,
};
use crate::equilibrium::{
    axes_upto, describes, directions, equilibrium_terms, free_terms, reaction_terms, reactions_upto,
    EquilibriumSystem, EquilibriumUnknown,
};
use crate::exact::{
    lemma_nil_sum, lemma_nil_zero, lemma_product, lemma_same_trans, lemma_total_linear,
    lemma_total_same, lemma_total_zero, total_of, Exact,
};
use crate::sparse::{lemma_has_column, lemma_transposed_wf, Csc};
use crate::types::Problem;
use vstd::prelude::*;

verus! {

proof fn lemma_free_placed<A: Arithmetic>(
    e: Exact,
    ar: A,
    cn_t: Csc,
    along: Seq<Real>,
    offset: int,
    row: int,
    c: int,
)
    requires
        e.computes(ar),
        cn_t.wf(),
        0 <= offset,
        offset + cn_t.nrows <= u32::MAX,
        cn_t.ncols <= u32::MAX,
    ensures
        e.same(
            placed(e, free_terms(ar, cn_t, along, offset), row, c),
            entry(e, cn_t, row - offset, c) * e.of(along[c]),
        ),
{
    let t = free_terms(ar, cn_t, along, offset);
    let n = cn_t.nnz() as int;
    let f = |l: int| placed_term(e, t, row, c, l);
    let g = |l: int| entry_term(e, cn_t, row - offset, c, l);
    let v = e.of(along[c]);
    let h = |l: int| v * g(l) + 0 * g(l);
    assert forall|l: int| 0 <= l < n implies e.same(#[trigger] f(l), h(l)) by {
        lemma_has_column(cn_t, l);
        assert(cn_t.rows[l] < cn_t.nrows);
        lemma_product(e, ar, cn_t.values[l], along[cn_t.column_of(l)]);
        let x = e.of(cn_t.values[l]);
        assert(v * x + 0 * x == x * v) by (nonlinear_arith);
        assert(v * 0 + 0 * 0 == 0) by (nonlinear_arith);
        lemma_nil_zero(e);
    }
    lemma_total_same(e, f, h, n);
    lemma_total_linear(g, g, v, 0, n);
    let s = total_of(g, n);
    assert(v * s + 0 * s == s * v) by (nonlinear_arith);
}

proof fn lemma_reaction_placed<A: Arithmetic>(
    e: Exact,
    ar: A,
    cf: Csc,
    along: Seq<Real>,
    offset: int,
    row: int,
    c: int,
)
    requires
        e.computes(ar),
        cf.wf(),
        0 <= offset,
        offset + cf.ncols <= u32::MAX,
    ensures
        e.same(
            placed(e, reaction_terms(ar, cf, along, offset), row, c),
            entry(e, cf, c, row - offset) * e.of(along[c]),
        ),
{
    let t = reaction_terms(ar, cf, along, offset);
    let n = cf.nnz() as int;
    let f = |l: int| placed_term(e, t, row, c, l);
    let g = |l: int| entry_term(e, cf, c, row - offset, l);
    let v = e.of(along[c]);
    let h = |l: int| v * g(l) + 0 * g(l);
    assert forall|l: int| 0 <= l < n implies e.same(#[trigger] f(l), h(l)) by {
        lemma_has_column(cf, l);
        lemma_product(e, ar, cf.values[l], along[cf.rows[l] as int]);
        let x = e.of(cf.values[l]);
        assert(v * x + 0 * x == x * v) by (nonlinear_arith);
        assert(v * 0 + 0 * 0 == 0) by (nonlinear_arith);
        lemma_nil_zero(e);
    }
    lemma_total_same(e, f, h, n);
    lemma_total_linear(g, g, v, 0, n);
    let s = total_of(g, n);
    assert(v * s + 0 * s == s * v) by (nonlinear_arith);
}

/// A matrix has nothing outside its rows and columns.
pub(crate) proof fn lemma_entry_outside(e: Exact, m: Csc, i: int, j: int)
    requires
        m.wf(),
        !(0 <= i < m.nrows) || !(0 <= j < m.ncols),
    ensures
        entry(e, m, i, j) == 0,
{
    let g = |l: int| entry_term(e, m, i, j, l);
    assert forall|l: int| 0 <= l < m.nnz() implies #[trigger] g(l) == 0 by {
        lemma_has_column(m, l);
        assert(m.rows[l] < m.nrows);
    }
    lemma_total_zero(g, m.nnz() as int);
}

/// What the axes before `d` put into row `i` of axis `axis` and column `c`.
proof fn lemma_axes_placed<A: Arithmetic>(
    e: Exact,
    ar: A,
    problem: Problem,
    target: Grid,
    unknown: EquilibriumUnknown,
    d: int,
    row: int,
    c: int,
)
    requires
        e.computes(ar),
        problem.wf(),
        0 <= d <= 3,
        3 * problem.n_free() <= u32::MAX,
        problem.topology.num_edges <= u32::MAX,
        0 <= row,
        0 <= c < problem.topology.num_edges,
    ensures
        e.same(
            placed(e, axes_upto(ar, problem, target, unknown, d), row, c),
            axes_share(e, ar, problem, target, unknown, d, row, c),
        ),
    decreases d,
{
    if d == 0 {
        let t = axes_upto(ar, problem, target, unknown, 0);
        let f = |l: int| placed_term(e, t, row, c, l);
        lemma_total_zero(f, 0);
        lemma_nil_zero(e);
    } else {
        lemma_axes_placed(e, ar, problem, target, unknown, d - 1, row, c);
        let cn = problem.topology.free_incidence@;
        let cn_t = cn.transposed();
        lemma_transposed_wf(cn);
        let n = problem.n_free() as int;
        let offset = (d - 1) * n;
        assert(0 <= offset && offset + n <= 3 * n) by (nonlinear_arith)
            requires
                offset == (d - 1) * n,
                1 <= d <= 3,
                0 <= n,
        ;
        let along = directions(ar, problem, target, unknown, d - 1);
        let before = axes_upto(ar, problem, target, unknown, d - 1);
        let last = free_terms(ar, cn_t, along, offset);
        lemma_placed_joined(e, before, last, row, c);
        lemma_free_placed(e, ar, cn_t, along, offset, row, c);
        if 0 <= row - offset < n {
            transposing_exchanges_rows_and_columns(e, cn, c, row - offset);
        } else {
            lemma_entry_outside(e, cn_t, row - offset, c);
            assert(0 * e.of(along[c]) == 0) by (nonlinear_arith);
        }
        let share = axes_share(e, ar, problem, target, unknown, d - 1, row, c);
        lemma_nil_sum(
            e,
            placed(e, before, row, c) - share,
            placed(e, last, row, c) - entry(e, cn_t, row - offset, c) * e.of(along[c]),
        );
    }
}

/// What the axes before `d` share in a row: for each axis whose block holds the row, the
/// incidence of edge and node times the direction of the edge.
spec fn axes_share<A: Arithmetic>(
    e: Exact,
    ar: A,
    problem: Problem,
    target: Grid,
    unknown: EquilibriumUnknown,
    d: int,
    row: int,
    c: int,
) -> int
    decreases d,
{
    if d <= 0 {
        0
    } else {
        let n = problem.n_free() as int;
        let node = row - (d - 1) * n;
        axes_share(e, ar, problem, target, unknown, d - 1, row, c) + if 0 <= node < n {
            entry(e, problem.topology.free_incidence@, c, node) * e.of(
                directions(ar, problem, target, unknown, d - 1)[c],
            )
        } else {
            0
        }
    }
}

proof fn lemma_reactions_above<A: Arithmetic>(
    e: Exact,
    ar: A,
    problem: Problem,
    target: Grid,
    unknown: EquilibriumUnknown,
    axes: Seq<int>,
    k: int,
    row: int,
    c: int,
)
    requires
        e.computes(ar),
        problem.wf(),
        0 <= k,
        3 * problem.n_free() + k * problem.n_fixed() <= u32::MAX,
        0 <= row,
    ensures
        row < 3 * problem.n_free() ==> e.nil(
            placed(e, reactions_upto(ar, problem, target, unknown, axes, k), row, c),
        ),
        forall|j: int, node: int|
            0 <= j < k && 0 <= node < problem.n_fixed() && row == 3 * problem.n_free() + #[trigger] (j
                * problem.n_fixed()) + node ==> #[trigger] reacted(
                e,
                ar,
                problem,
                target,
                unknown,
                axes,
                k,
                row,
                c,
                j,
                node,
            ),
        row >= 3 * problem.n_free() + k * problem.n_fixed() ==> e.nil(
            placed(e, reactions_upto(ar, problem, target, unknown, axes, k), row, c),
        ),
    decreases k,
{
    let n = problem.n_fixed() as int;
    let all = reactions_upto(ar, problem, target, unknown, axes, k);
    let f = |l: int| placed_term(e, all, row, c, l);
    if k == 0 {
        lemma_total_zero(f, 0);
        lemma_nil_zero(e);
    } else {
        assert(k * n == (k - 1) * n + n && 0 <= (k - 1) * n) by (nonlinear_arith)
            requires
                1 <= k,
                0 <= n,
        ;
        lemma_reactions_above(e, ar, problem, target, unknown, axes, k - 1, row, c);
        let cf = problem.topology.fixed_incidence@;
        let offset = 3 * problem.n_free() + (k - 1) * n;
        let along = directions(ar, problem, target, unknown, axes[k - 1]);
        let before = reactions_upto(ar, problem, target, unknown, axes, k - 1);
        let last = reaction_terms(ar, cf, along, offset);
        lemma_placed_joined(e, before, last, row, c);
        lemma_reaction_placed(e, ar, cf, along, offset, row, c);
        let own = entry(e, cf, c, row - offset) * e.of(along[c]);
        if !(0 <= row - offset < n) {
            lemma_entry_outside(e, cf, c, row - offset);
            assert(0 * e.of(along[c]) == 0) by (nonlinear_arith);
            assert(e.nil(placed(e, last, row, c)));
        }
        if row < 3 * problem.n_free() || row >= offset + n {
            lemma_nil_sum(e, placed(e, before, row, c), placed(e, last, row, c));
        }
        assert forall|j: int, node: int|
            0 <= j < k && 0 <= node < n && row == 3 * problem.n_free() + #[trigger] (j
                * problem.n_fixed()) + node implies #[trigger] reacted(
            e,
            ar,
            problem,
            target,
            unknown,
            axes,
            k,
            row,
            c,
            j,
            node,
        ) by {
            if j == k - 1 {
                lemma_nil_sum(e, placed(e, before, row, c), placed(e, last, row, c) - own);
            } else {
                assert(j * n + n <= (k - 1) * n) by (nonlinear_arith)
                    requires
                        j < k - 1,
                        0 <= n,
                ;
                assert(reacted(
                    e,
                    ar,
                    problem,
                    target,
                    unknown,
                    axes,
                    k - 1,
                    row,
                    c,
                    j,
                    node,
                ));
                let share = entry(e, cf, c, node) * e.of(
                    directions(ar, problem, target, unknown, axes[j])[c],
                );
                lemma_nil_sum(e, placed(e, before, row, c) - share, placed(e, last, row, c));
            }
        }
    }
}

/// Whether the reaction rows put into a row what axis `j` and a fixed node call for.
spec fn reacted<A: Arithmetic>(
    e: Exact,
    ar: A,
    problem: Problem,
    target: Grid,
    unknown: EquilibriumUnknown,
    axes: Seq<int>,
    k: int,
    row: int,
    c: int,
    j: int,
    node: int,
) -> bool {
    e.same(
        placed(e, reactions_upto(ar, problem, target, unknown, axes, k), row, c),
        entry(e, problem.topology.fixed_incidence@, c, node) * e.of(
            directions(ar, problem, target, unknown, axes[j])[c],
        ),
    )
}

/// The equilibrium matrix has, in the row of free node `i` and axis `d`, which is row
/// `d n + i`, and in the column of an edge, the incidence of edge and node times coordinate
/// `d` of the edge's direction.
pub proof fn free_rows_hold_directions<A: Arithmetic>(
    e: Exact,
    ar: A,
    problem: Problem,
    target: Grid,
    unknown: EquilibriumUnknown,
    axes: Seq<int>,
    s: EquilibriumSystem,
    i: int,
    d: int,
    c: int,
)
    requires
        functional(ar),
        e.computes(ar),
        problem.wf(),
        describes(s, ar, problem, target, unknown, axes),
        0 <= i < problem.n_free(),
        0 <= d < 3,
        0 <= c < problem.topology.num_edges,
    ensures
        0 <= d * problem.n_free() + i < 3 * problem.n_free() <= s.n_eq,
        e.same(
            entry(e, s.a@, d * problem.n_free() + i, c),
            entry(e, problem.topology.free_incidence@, c, i) * e.of(
                directions(ar, problem, target, unknown, d)[c],
            ),
        ),
{
    let n = problem.n_free() as int;
    let row = d * n + i;
    assert(0 <= d * n && d * n + n <= 3 * n && 0 <= axes.len() * problem.n_fixed())
        by (nonlinear_arith)
        requires
            0 <= d < 3,
            0 <= n,
    ;
    let free = axes_upto(ar, problem, target, unknown, 3);
    let rest = reactions_upto(ar, problem, target, unknown, axes, axes.len() as int);
    assembling_adds_up(
        e,
        ar,
        s.n_eq as nat,
        s.n_edges as nat,
        equilibrium_terms(ar, problem, target, unknown, axes),
        row,
        c,
    );
    lemma_placed_joined(e, free, rest, row, c);
    lemma_axes_placed(e, ar, problem, target, unknown, 3, row, c);
    lemma_reactions_above(e, ar, problem, target, unknown, axes, axes.len() as int, row, c);
    let share = axes_share(e, ar, problem, target, unknown, 3, row, c);
    let own = entry(e, problem.topology.free_incidence@, c, i) * e.of(
        directions(ar, problem, target, unknown, d)[c],
    );
    reveal_with_fuel(axes_share, 4);
    assert(0 * n == 0 && 1 * n == n && 2 * n == n + n) by (nonlinear_arith);
    if d == 0 {
        assert(share == own);
    } else if d == 1 {
        assert(share == own);
    } else {
        assert(d == 2);
        assert(share == own);
    }
    let a = entry(e, s.a@, row, c);
    lemma_nil_sum(e, placed(e, free, row, c) - own, placed(e, rest, row, c));
    lemma_same_trans(e, a, placed(e, free + rest, row, c), own);
}

/// The equilibrium matrix has, in the reaction row of fixed node `node` and the `j`-th axis
/// that is asked for, the incidence of edge and node times the edge's direction along that
/// axis.
pub proof fn reaction_rows_hold_directions<A: Arithmetic>(
    e: Exact,
    ar: A,
    problem: Problem,
    target: Grid,
    unknown: EquilibriumUnknown,
    axes: Seq<int>,
    s: EquilibriumSystem,
    j: int,
    node: int,
    c: int,
)
    requires
        functional(ar),
        e.computes(ar),
        problem.wf(),
        describes(s, ar, problem, target, unknown, axes),
        0 <= j < axes.len(),
        0 <= node < problem.n_fixed(),
        0 <= c < problem.topology.num_edges,
    ensures
        ({
            let row = 3 * problem.n_free() + j * problem.n_fixed() + node;
            &&& row < s.n_eq
            &&& e.same(
                entry(e, s.a@, row, c),
                entry(e, problem.topology.fixed_incidence@, c, node) * e.of(
                    directions(ar, problem, target, unknown, axes[j])[c],
                ),
            )
        }),
{
    let n = problem.n_fixed() as int;
    let m = problem.n_free() as int;
    let row = 3 * m + j * problem.n_fixed() + node;
    assert(0 <= j * n && j * n + n <= axes.len() * n) by (nonlinear_arith)
        requires
            0 <= j < axes.len(),
            0 <= n,
    ;
    let free = axes_upto(ar, problem, target, unknown, 3);
    let rest = reactions_upto(ar, problem, target, unknown, axes, axes.len() as int);
    assembling_adds_up(
        e,
        ar,
        s.n_eq as nat,
        s.n_edges as nat,
        equilibrium_terms(ar, problem, target, unknown, axes),
        row,
        c,
    );
    lemma_placed_joined(e, free, rest, row, c);
    lemma_axes_placed(e, ar, problem, target, unknown, 3, row, c);
    lemma_reactions_above(e, ar, problem, target, unknown, axes, axes.len() as int, row, c);
    assert(reacted(
        e,
        ar,
        problem,
        target,
        unknown,
        axes,
        axes.len() as int,
        row,
        c,
        j,
        node,
    ));
    reveal_with_fuel(axes_share, 4);
    assert(0 * m == 0 && 1 * m == m && 2 * m == m + m) by (nonlinear_arith);
    assert(axes_share(e, ar, problem, target, unknown, 3, row, c) == 0);
    let own = entry(e, problem.topology.fixed_incidence@, c, node) * e.of(
        directions(ar, problem, target, unknown, axes[j])[c],
    );
    lemma_nil_sum(e, placed(e, free, row, c), placed(e, rest, row, c) - own);
    lemma_same_trans(e, entry(e, s.a@, row, c), placed(e, free + rest, row, c), own);
}

/// The load of free node `i` along axis `d` stands in the row of that node and axis, which
/// is row `d n + i`.
pub proof fn free_rows_hold_loads<A: Arithmetic>(
    ar: A,
    problem: Problem,
    target: Grid,
    unknown: EquilibriumUnknown,
    axes: Seq<int>,
    s: EquilibriumSystem,
    i: int,
    d: int,
)
    requires
        describes(s, ar, problem, target, unknown, axes),
        0 <= i < problem.n_free(),
        0 <= d < 3,
    ensures
        s.p@[d * problem.n_free() + i] == problem.free_node_loads@.at(i, d),
{
    let n = problem.n_free() as int;
    let row = d * n + i;
    assert(0 <= d * n && d * n + n <= 3 * n && 0 <= axes.len() * problem.n_fixed())
        by (nonlinear_arith)
        requires
            0 <= d < 3,
            0 <= n,
    ;
    vstd::arithmetic::div_mod::lemma_fundamental_div_mod_converse(row, n, d, i);
}

} // verus!
