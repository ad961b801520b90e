//! What rows for vanishing reactions add to an equilibrium system.

use crate::arithmetic::{functional, Arithmetic};
use crate::array::Grid;
use crate::double::{Real, ZERO};
use crate::equilibrium::{
    axes_upto, describes, directions, equilibrium_terms, free_terms, reaction_terms, reactions_upto,
    EquilibriumSystem, EquilibriumUnknown,
};
use crate::sparse::{
    assembled, column_list, column_upto, joined, lemma_column_goes_on,
    lemma_column_without_the_last, lemma_has_column, lemma_packed_column,
    lemma_total_without_the_first, lemma_total_without_the_last, lemma_transposed_wf, total,
};
use crate::types::Problem;
use vstd::prelude::*;

verus! {

proof fn lemma_free_rows<A: Arithmetic>(
    ar: A,
    problem: Problem,
    target: Grid,
    unknown: EquilibriumUnknown,
    d: int,
)
    requires
        problem.wf(),
        0 <= d <= 3,
        3 * problem.n_free() <= u32::MAX,
    ensures
        forall|i: int|
            0 <= i < axes_upto(ar, problem, target, unknown, d).len() ==> (#[trigger] axes_upto(
                ar,
                problem,
                target,
                unknown,
                d,
            )[i]).0 < d * problem.n_free(),
    decreases d,
{
    if d > 0 {
        lemma_free_rows(ar, problem, target, unknown, d - 1);
        let cn_t = problem.topology.free_incidence@.transposed();
        lemma_transposed_wf(problem.topology.free_incidence@);
        let before = axes_upto(ar, problem, target, unknown, d - 1);
        let now = axes_upto(ar, problem, target, unknown, d);
        let n = problem.n_free() as int;
        assert(d * n == (d - 1) * n + n) by (nonlinear_arith);
        assert(0 <= (d - 1) * n && d * n <= 3 * n) by (nonlinear_arith)
            requires
                1 <= d <= 3,
                0 <= n,
        ;
        let along = directions(ar, problem, target, unknown, d - 1);
        let terms = free_terms(ar, cn_t, along, (d - 1) * n);
        assert forall|i: int| 0 <= i < now.len() implies (#[trigger] now[i]).0 < d * n by {
            if i < before.len() {
                assert(now[i] == before[i]);
            } else {
                let k = i - before.len();
                assert(now[i] == terms[k]);
                assert(cn_t.rows[k] < cn_t.nrows);
            }
        }
    }
}

proof fn lemma_block_rows<A: Arithmetic>(
    ar: A,
    problem: Problem,
    target: Grid,
    unknown: EquilibriumUnknown,
    axis: int,
    j: int,
)
    requires
        problem.wf(),
        0 <= j,
        3 * problem.n_free() + (j + 1) * problem.n_fixed() <= u32::MAX,
    ensures
        ({
            let offset = 3 * problem.n_free() + j * problem.n_fixed();
            let terms = reaction_terms(
                ar,
                problem.topology.fixed_incidence@,
                directions(ar, problem, target, unknown, axis),
                offset,
            );
            forall|k: int|
                0 <= k < terms.len() ==> offset <= (#[trigger] terms[k]).0 < offset
                    + problem.n_fixed()
        }),
{
    let n = problem.n_fixed() as int;
    assert((j + 1) * n == j * n + n && 0 <= j * n) by (nonlinear_arith)
        requires
            0 <= j,
            0 <= n,
    ;
    let cf = problem.topology.fixed_incidence@;
    let offset = 3 * problem.n_free() + j * n;
    let terms = reaction_terms(ar, cf, directions(ar, problem, target, unknown, axis), offset);
    assert forall|k: int| 0 <= k < terms.len() implies offset <= (#[trigger] terms[k]).0 < offset
        + n by {
        lemma_has_column(cf, k);
    }
}

proof fn lemma_reaction_rows<A: Arithmetic>(
    ar: A,
    problem: Problem,
    target: Grid,
    unknown: EquilibriumUnknown,
    axes: Seq<int>,
    k: int,
)
    requires
        problem.wf(),
        0 <= k,
        3 * problem.n_free() + k * problem.n_fixed() <= u32::MAX,
    ensures
        forall|i: int|
            0 <= i < reactions_upto(ar, problem, target, unknown, axes, k).len() ==> 3
                * problem.n_free() <= (#[trigger] reactions_upto(
                ar,
                problem,
                target,
                unknown,
                axes,
                k,
            )[i]).0 < 3 * problem.n_free() + k * problem.n_fixed(),
    decreases k,
{
    if k > 0 {
        let n = problem.n_fixed() as int;
        assert(k * n == (k - 1) * n + n && 0 <= (k - 1) * n) by (nonlinear_arith)
            requires
                0 < k,
                0 <= n,
        ;
        lemma_reaction_rows(ar, problem, target, unknown, axes, k - 1);
        lemma_block_rows(ar, problem, target, unknown, axes[k - 1], k - 1);
        let before = reactions_upto(ar, problem, target, unknown, axes, k - 1);
        let now = reactions_upto(ar, problem, target, unknown, axes, k);
        let terms = reaction_terms(
            ar,
            problem.topology.fixed_incidence@,
            directions(ar, problem, target, unknown, axes[k - 1]),
            3 * problem.n_free() + (k - 1) * n,
        );
        assert forall|i: int| 0 <= i < now.len() implies 3 * problem.n_free() <= (
        #[trigger] now[i]).0 < 3 * problem.n_free() + k * n by {
            if i < before.len() {
                assert(now[i] == before[i]);
            } else {
                assert(now[i] == terms[i - before.len()]);
            }
        }
    }
}

proof fn lemma_reaction_row<A: Arithmetic>(
    ar: A,
    problem: Problem,
    target: Grid,
    unknown: EquilibriumUnknown,
    axes: Seq<int>,
    k: int,
    j: int,
    r: int,
    c: int,
)
    requires
        problem.wf(),
        0 <= j < k,
        3 * problem.n_free() + k * problem.n_fixed() <= u32::MAX,
        3 * problem.n_free() + j * problem.n_fixed() <= r,
        r < 3 * problem.n_free() + (j + 1) * problem.n_fixed(),
    ensures
        ({
            let all = reactions_upto(ar, problem, target, unknown, axes, k);
            let block = reaction_terms(
                ar,
                problem.topology.fixed_incidence@,
                directions(ar, problem, target, unknown, axes[j]),
                3 * problem.n_free() + j * problem.n_fixed(),
            );
            total(ar, all, r, c, all.len() as int) == total(ar, block, r, c, block.len() as int)
        }),
    decreases k,
{
    let n = problem.n_fixed() as int;
    let before = reactions_upto(ar, problem, target, unknown, axes, k - 1);
    let last = reaction_terms(
        ar,
        problem.topology.fixed_incidence@,
        directions(ar, problem, target, unknown, axes[k - 1]),
        3 * problem.n_free() + (k - 1) * n,
    );
    assert(k * n == (k - 1) * n + n) by (nonlinear_arith);
    assert((j + 1) * n <= k * n) by (nonlinear_arith)
        requires
            j < k,
            0 <= n,
    ;
    if j == k - 1 {
        lemma_reaction_rows(ar, problem, target, unknown, axes, k - 1);
        lemma_total_without_the_first(ar, before, last, r, c, last.len() as int);
    } else {
        assert((j + 1) * n <= (k - 1) * n) by (nonlinear_arith)
            requires
                j < k - 1,
                0 <= n,
        ;
        lemma_block_rows(ar, problem, target, unknown, axes[k - 1], k - 1);
        lemma_total_without_the_last(ar, before, last, r, c, last.len() as int);
        lemma_reaction_row(ar, problem, target, unknown, axes, k - 1, j, r, c);
    }
    assert((before + last).len() == before.len() + last.len());
}

/// Whether a list of entries begins with another and goes on in the rows from `low` on.
pub open spec fn goes_on(list: Seq<(u32, Real)>, top: Seq<(u32, Real)>, low: int) -> bool {
    &&& top.len() <= list.len()
    &&& list.subrange(0, top.len() as int) == top
    &&& forall|k: int| top.len() <= k < list.len() ==> (#[trigger] list[k]).0 >= low
}

/// Rows for vanishing reactions follow the rows of the free nodes, one for each fixed node
/// and axis, and leave those as they are: the same lengths, the same loads and the same
/// entries, in every column.  The rows that follow carry no load.
pub proof fn reaction_rows_leave_the_free_rows<A: Arithmetic>(
    ar: A,
    problem: Problem,
    target: Grid,
    unknown: EquilibriumUnknown,
    axes: Seq<int>,
    plain: EquilibriumSystem,
    s: EquilibriumSystem,
)
    requires
        functional(ar),
        problem.wf(),
        describes(plain, ar, problem, target, unknown, Seq::empty()),
        describes(s, ar, problem, target, unknown, axes),
    ensures
        plain.n_eq == 3 * problem.n_free(),
        s.n_eq == plain.n_eq + axes.len() * problem.n_fixed(),
        s.lengths@ == plain.lengths@,
        s.p@.subrange(0, plain.n_eq as int) == plain.p@,
        forall|i: int| plain.n_eq <= i < s.n_eq ==> (#[trigger] s.p@[i]) == (Real { bits: ZERO }),
        forall|c: int|
            0 <= c < s.n_edges ==> goes_on(
                #[trigger] column_list(s.a@, c),
                column_list(plain.a@, c),
                plain.n_eq as int,
            ),
{
    let none = Seq::<int>::empty();
    let free = axes_upto(ar, problem, target, unknown, 3);
    let rest = reactions_upto(ar, problem, target, unknown, axes, axes.len() as int);
    let t = equilibrium_terms(ar, problem, target, unknown, axes);
    let t0 = equilibrium_terms(ar, problem, target, unknown, none);
    assert(none.len() * problem.n_fixed() == 0) by (nonlinear_arith)
        requires
            none.len() == 0,
    ;
    assert(0 <= axes.len() * problem.n_fixed()) by (nonlinear_arith);
    assert(t0 =~= free);
    assert(t == free + rest);
    lemma_reaction_rows(ar, problem, target, unknown, axes, axes.len() as int);
    assert(s.p@.subrange(0, plain.n_eq as int) =~= plain.p@);
    let low = plain.n_eq as int;
    let lists = Seq::new(s.n_edges as nat, |c: int| column_upto(ar, t, c, s.n_eq as int));
    let lists0 = Seq::new(s.n_edges as nat, |c: int| column_upto(ar, t0, c, low));
    assert(s.a@.starts[s.a@.ncols as int] == joined(lists, lists.len() as int).len());
    assert(plain.a@.starts[plain.a@.ncols as int] == joined(lists0, lists0.len() as int).len());
    assert forall|c: int| 0 <= c < s.n_edges implies goes_on(
        #[trigger] column_list(s.a@, c),
        column_list(plain.a@, c),
        low,
    ) by {
        lemma_packed_column(s.n_eq as nat, lists, c);
        lemma_packed_column(plain.n_eq as nat, lists0, c);
        lemma_column_without_the_last(ar, free, rest, c, low, low);
        lemma_column_goes_on(ar, t, c, low, s.n_eq as int);
    }
}

/// What a reaction row holds in a column: the terms of its own axis and fixed node, and
/// nothing of any other.
pub proof fn reaction_rows_hold_their_axis<A: Arithmetic>(
    ar: A,
    problem: Problem,
    target: Grid,
    unknown: EquilibriumUnknown,
    axes: Seq<int>,
    s: EquilibriumSystem,
    j: int,
    node: int,
    c: int,
)
    requires
        functional(ar),
        problem.wf(),
        describes(s, ar, problem, target, unknown, axes),
        0 <= j < axes.len(),
        0 <= node < problem.n_fixed(),
    ensures
        ({
            let t = equilibrium_terms(ar, problem, target, unknown, axes);
            let offset = 3 * problem.n_free() + j * problem.n_fixed();
            let block = reaction_terms(
                ar,
                problem.topology.fixed_incidence@,
                directions(ar, problem, target, unknown, axes[j]),
                offset,
            );
            &&& s.a@ == assembled(ar, s.n_eq as nat, s.n_edges as nat, t)
            &&& offset + node < s.n_eq
            &&& total(ar, t, offset + node, c, t.len() as int) == total(
                ar,
                block,
                offset + node,
                c,
                block.len() as int,
            )
        }),
{
    let n = problem.n_fixed() as int;
    let free = axes_upto(ar, problem, target, unknown, 3);
    let rest = reactions_upto(ar, problem, target, unknown, axes, axes.len() as int);
    let offset = 3 * problem.n_free() + j * n;
    let r = offset + node;
    assert((j + 1) * n == j * n + n && 0 <= j * n) by (nonlinear_arith)
        requires
            0 <= j,
            0 <= n,
    ;
    assert((j + 1) * n <= axes.len() * n) by (nonlinear_arith)
        requires
            j < axes.len(),
            0 <= n,
    ;
    lemma_free_rows(ar, problem, target, unknown, 3);
    lemma_total_without_the_first(ar, free, rest, r, c, rest.len() as int);
    lemma_reaction_row(ar, problem, target, unknown, axes, axes.len() as int, j, r, c);
    assert((free + rest).len() == free.len() + rest.len());
}

} // verus!
