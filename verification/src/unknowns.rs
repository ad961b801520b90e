//! What the two kinds of unknowns of an equilibrium system share.

use crate::arithmetic::{functional, product_of, quotient_of, Arithmetic};
use crate::array::Grid;
use crate::double::Real;
use crate::equilibrium::{
    assembly_outcome, axes_upto, directions, equilibrium_terms, free_terms, lengths_of,
    reaction_terms, reactions_upto, EquilibriumSystem, EquilibriumUnknown,
};
use crate::error::TheseusError;
use crate::sparse::{
    assembled, column_list, column_upto, joined, lemma_has_column, lemma_packed_column,
    lemma_transposed_wf, total, Triplet,
};
use crate::types::Problem;
use crate::uniqueness::lemma_described;
use vstd::prelude::*;

verus! {

/// Whether an entry for the density of an edge, a coefficient times a span, has beside it
/// the entry for the force of that edge, the coefficient times the span over the length.
pub open spec fn divided_by_length<A: Arithmetic>(
    ar: A,
    lengths: Seq<Real>,
    density: Triplet,
    force: Triplet,
) -> bool {
    &&& density.0 == force.0
    &&& density.1 == force.1
    &&& density.1 < lengths.len()
    &&& exists|v: Real, span: Real|
        {
            &&& density.2 == #[trigger] product_of(ar, v, span)
            &&& force.2 == product_of(ar, v, quotient_of(ar, span, lengths[density.1 as int]))
        }
}

/// Whether two lists of entries correspond one by one.
pub open spec fn divided_by_lengths<A: Arithmetic>(
    ar: A,
    lengths: Seq<Real>,
    density: Seq<Triplet>,
    force: Seq<Triplet>,
) -> bool {
    &&& density.len() == force.len()
    &&& forall|k: int|
        0 <= k < density.len() ==> divided_by_length(
            ar,
            lengths,
            #[trigger] density[k],
            force[k],
        )
}

/// Whether two lists have entries in the same rows.
pub open spec fn same_places(a: Seq<(u32, Real)>, b: Seq<(u32, Real)>) -> bool {
    a.len() == b.len() && forall|k: int| 0 <= k < a.len() ==> (#[trigger] a[k]).0 == b[k].0
}

proof fn lemma_joined_lists<A: Arithmetic>(
    ar: A,
    lengths: Seq<Real>,
    a: Seq<Triplet>,
    b: Seq<Triplet>,
    c: Seq<Triplet>,
    d: Seq<Triplet>,
)
    requires
        divided_by_lengths(ar, lengths, a, b),
        divided_by_lengths(ar, lengths, c, d),
    ensures
        divided_by_lengths(ar, lengths, a + c, b + d),
{
    assert forall|k: int| 0 <= k < (a + c).len() implies divided_by_length(
        ar,
        lengths,
        #[trigger] (a + c)[k],
        (b + d)[k],
    ) by {
        if k < a.len() {
            assert((a + c)[k] == a[k] && (b + d)[k] == b[k]);
        } else {
            assert((a + c)[k] == c[k - a.len()] && (b + d)[k] == d[k - a.len()]);
        }
    }
}

proof fn lemma_directions<A: Arithmetic>(
    ar: A,
    problem: Problem,
    target: Grid,
    d: int,
    e: int,
)
    requires
        0 <= e < problem.topology.num_edges,
    ensures
        directions(ar, problem, target, EquilibriumUnknown::Force, d)[e] == quotient_of(
            ar,
            directions(ar, problem, target, EquilibriumUnknown::ForceDensity, d)[e],
            lengths_of(ar, problem, target)[e],
        ),
{
}

proof fn lemma_free_terms<A: Arithmetic>(
    ar: A,
    problem: Problem,
    target: Grid,
    d: int,
    offset: int,
)
    requires
        problem.wf(),
        problem.topology.num_edges < u32::MAX,
    ensures
        ({
            let cn_t = problem.topology.free_incidence@.transposed();
            divided_by_lengths(
                ar,
                lengths_of(ar, problem, target),
                free_terms(
                    ar,
                    cn_t,
                    directions(ar, problem, target, EquilibriumUnknown::ForceDensity, d),
                    offset,
                ),
                free_terms(
                    ar,
                    cn_t,
                    directions(ar, problem, target, EquilibriumUnknown::Force, d),
                    offset,
                ),
            )
        }),
{
    let cn_t = problem.topology.free_incidence@.transposed();
    let lengths = lengths_of(ar, problem, target);
    let span = directions(ar, problem, target, EquilibriumUnknown::ForceDensity, d);
    let unit = directions(ar, problem, target, EquilibriumUnknown::Force, d);
    lemma_transposed_wf(problem.topology.free_incidence@);
    assert forall|k: int| 0 <= k < cn_t.nnz() implies divided_by_length(
        ar,
        lengths,
        #[trigger] free_terms(ar, cn_t, span, offset)[k],
        free_terms(ar, cn_t, unit, offset)[k],
    ) by {
        lemma_has_column(cn_t, k);
        let e = cn_t.column_of(k);
        lemma_directions(ar, problem, target, d, e);
        let density = free_terms(ar, cn_t, span, offset)[k];
        assert(density.2 == product_of(ar, cn_t.values[k], span[e]));
    }
}

proof fn lemma_reaction_terms<A: Arithmetic>(
    ar: A,
    problem: Problem,
    target: Grid,
    d: int,
    offset: int,
)
    requires
        problem.wf(),
        problem.topology.num_edges < u32::MAX,
    ensures
        ({
            let cf = problem.topology.fixed_incidence@;
            divided_by_lengths(
                ar,
                lengths_of(ar, problem, target),
                reaction_terms(
                    ar,
                    cf,
                    directions(ar, problem, target, EquilibriumUnknown::ForceDensity, d),
                    offset,
                ),
                reaction_terms(
                    ar,
                    cf,
                    directions(ar, problem, target, EquilibriumUnknown::Force, d),
                    offset,
                ),
            )
        }),
{
    let cf = problem.topology.fixed_incidence@;
    let lengths = lengths_of(ar, problem, target);
    let span = directions(ar, problem, target, EquilibriumUnknown::ForceDensity, d);
    let unit = directions(ar, problem, target, EquilibriumUnknown::Force, d);
    assert forall|k: int| 0 <= k < cf.nnz() implies divided_by_length(
        ar,
        lengths,
        #[trigger] reaction_terms(ar, cf, span, offset)[k],
        reaction_terms(ar, cf, unit, offset)[k],
    ) by {
        let e = cf.rows[k] as int;
        assert(cf.rows[k] < cf.nrows);
        lemma_directions(ar, problem, target, d, e);
        let density = reaction_terms(ar, cf, span, offset)[k];
        assert(density.2 == product_of(ar, cf.values[k], span[e]));
    }
}

proof fn lemma_axes<A: Arithmetic>(ar: A, problem: Problem, target: Grid, d: int)
    requires
        problem.wf(),
        problem.topology.num_edges < u32::MAX,
    ensures
        divided_by_lengths(
            ar,
            lengths_of(ar, problem, target),
            axes_upto(ar, problem, target, EquilibriumUnknown::ForceDensity, d),
            axes_upto(ar, problem, target, EquilibriumUnknown::Force, d),
        ),
    decreases d,
{
    if d > 0 {
        let offset = (d - 1) * problem.n_free();
        let cn_t = problem.topology.free_incidence@.transposed();
        lemma_axes(ar, problem, target, d - 1);
        lemma_free_terms(ar, problem, target, d - 1, offset);
        lemma_joined_lists(
            ar,
            lengths_of(ar, problem, target),
            axes_upto(ar, problem, target, EquilibriumUnknown::ForceDensity, d - 1),
            axes_upto(ar, problem, target, EquilibriumUnknown::Force, d - 1),
            free_terms(
                ar,
                cn_t,
                directions(ar, problem, target, EquilibriumUnknown::ForceDensity, d - 1),
                offset,
            ),
            free_terms(
                ar,
                cn_t,
                directions(ar, problem, target, EquilibriumUnknown::Force, d - 1),
                offset,
            ),
        );
    }
}

proof fn lemma_reactions<A: Arithmetic>(
    ar: A,
    problem: Problem,
    target: Grid,
    axes: Seq<int>,
    k: int,
)
    requires
        problem.wf(),
        problem.topology.num_edges < u32::MAX,
    ensures
        divided_by_lengths(
            ar,
            lengths_of(ar, problem, target),
            reactions_upto(ar, problem, target, EquilibriumUnknown::ForceDensity, axes, k),
            reactions_upto(ar, problem, target, EquilibriumUnknown::Force, axes, k),
        ),
    decreases k,
{
    if k > 0 {
        let offset = 3 * problem.n_free() + (k - 1) * problem.n_fixed();
        let cf = problem.topology.fixed_incidence@;
        lemma_reactions(ar, problem, target, axes, k - 1);
        lemma_reaction_terms(ar, problem, target, axes[k - 1], offset);
        lemma_joined_lists(
            ar,
            lengths_of(ar, problem, target),
            reactions_upto(ar, problem, target, EquilibriumUnknown::ForceDensity, axes, k - 1),
            reactions_upto(ar, problem, target, EquilibriumUnknown::Force, axes, k - 1),
            reaction_terms(
                ar,
                cf,
                directions(ar, problem, target, EquilibriumUnknown::ForceDensity, axes[k - 1]),
                offset,
            ),
            reaction_terms(
                ar,
                cf,
                directions(ar, problem, target, EquilibriumUnknown::Force, axes[k - 1]),
                offset,
            ),
        );
    }
}

proof fn lemma_same_totals<A: Arithmetic>(
    ar: A,
    lengths: Seq<Real>,
    s: Seq<Triplet>,
    t: Seq<Triplet>,
    r: int,
    c: int,
    k: int,
)
    requires
        divided_by_lengths(ar, lengths, s, t),
        0 <= k <= s.len(),
    ensures
        total(ar, s, r, c, k) is Some == total(ar, t, r, c, k) is Some,
    decreases k,
{
    if k > 0 {
        lemma_same_totals(ar, lengths, s, t, r, c, k - 1);
        assert(divided_by_length(ar, lengths, s[k - 1], t[k - 1]));
    }
}

proof fn lemma_same_places<A: Arithmetic>(
    ar: A,
    lengths: Seq<Real>,
    s: Seq<Triplet>,
    t: Seq<Triplet>,
    c: int,
    r: int,
)
    requires
        divided_by_lengths(ar, lengths, s, t),
    ensures
        same_places(column_upto(ar, s, c, r), column_upto(ar, t, c, r)),
    decreases r,
{
    if r > 0 {
        lemma_same_places(ar, lengths, s, t, c, r - 1);
        lemma_same_totals(ar, lengths, s, t, r - 1, c, s.len() as int);
        let u = column_upto(ar, s, c, r - 1);
        let v = column_upto(ar, t, c, r - 1);
        assert forall|k: int| 0 <= k < column_upto(ar, s, c, r).len() implies (
        #[trigger] column_upto(ar, s, c, r)[k]).0 == column_upto(ar, t, c, r)[k].0 by {
            if k < u.len() {
                assert(column_upto(ar, s, c, r)[k] == u[k]);
                assert(column_upto(ar, t, c, r)[k] == v[k]);
            }
        }
    }
}

/// A problem has an equilibrium system for member forces exactly where it has one for force
/// densities.  The two have the same sizes, loads, lengths and positions, their matrices
/// have entries in the same places, and what is summed up in a place is, term by term, a
/// coefficient times a span for densities and that coefficient times the span over the
/// length for forces.
pub proof fn forces_divide_spans_by_lengths<A: Arithmetic>(
    ar: A,
    problem: Problem,
    target: Grid,
    axes: Seq<int>,
    density: Result<EquilibriumSystem, TheseusError>,
    force: Result<EquilibriumSystem, TheseusError>,
)
    requires
        functional(ar),
        problem.wf(),
        assembly_outcome(
            ar,
            problem,
            target,
            EquilibriumUnknown::ForceDensity,
            axes,
            density,
        ),
        assembly_outcome(ar, problem, target, EquilibriumUnknown::Force, axes, force),
    ensures
        density is Ok <==> force is Ok,
        density is Ok ==> {
            let e = density->Ok_0;
            let f = force->Ok_0;
            let s = equilibrium_terms(
                ar,
                problem,
                target,
                EquilibriumUnknown::ForceDensity,
                axes,
            );
            let t = equilibrium_terms(ar, problem, target, EquilibriumUnknown::Force, axes);
            &&& e.p@ == f.p@
            &&& e.lengths@ == f.lengths@
            &&& e.n_eq == f.n_eq
            &&& e.n_edges == f.n_edges
            &&& e.n_free == f.n_free
            &&& e.free_positions@ == f.free_positions@
            &&& e.a@ == assembled(ar, e.n_eq as nat, e.n_edges as nat, s)
            &&& f.a@ == assembled(ar, e.n_eq as nat, e.n_edges as nat, t)
            &&& divided_by_lengths(ar, e.lengths@, s, t)
            &&& forall|c: int|
                0 <= c < e.n_edges ==> same_places(
                    #[trigger] column_list(e.a@, c),
                    column_list(f.a@, c),
                )
        },
{
    if density is Ok && force is Err {
        lemma_described(
            ar,
            problem,
            target,
            EquilibriumUnknown::ForceDensity,
            axes,
            density->Ok_0,
            force->Err_0,
        );
    }
    if force is Ok && density is Err {
        lemma_described(
            ar,
            problem,
            target,
            EquilibriumUnknown::Force,
            axes,
            force->Ok_0,
            density->Err_0,
        );
    }
    if density is Ok {
        let e = density->Ok_0;
        let f = force->Ok_0;
        let lengths = e.lengths@;
        let s = equilibrium_terms(ar, problem, target, EquilibriumUnknown::ForceDensity, axes);
        let t = equilibrium_terms(ar, problem, target, EquilibriumUnknown::Force, axes);
        lemma_axes(ar, problem, target, 3);
        lemma_reactions(ar, problem, target, axes, axes.len() as int);
        lemma_joined_lists(
            ar,
            lengths,
            axes_upto(ar, problem, target, EquilibriumUnknown::ForceDensity, 3),
            axes_upto(ar, problem, target, EquilibriumUnknown::Force, 3),
            reactions_upto(
                ar,
                problem,
                target,
                EquilibriumUnknown::ForceDensity,
                axes,
                axes.len() as int,
            ),
            reactions_upto(
                ar,
                problem,
                target,
                EquilibriumUnknown::Force,
                axes,
                axes.len() as int,
            ),
        );
        let rows = e.n_eq as int;
        let u = Seq::new(e.n_edges as nat, |c: int| column_upto(ar, s, c, rows));
        let v = Seq::new(e.n_edges as nat, |c: int| column_upto(ar, t, c, rows));
        assert(e.a@.starts[e.a@.ncols as int] == joined(u, u.len() as int).len());
        assert(f.a@.starts[f.a@.ncols as int] == joined(v, v.len() as int).len());
        assert forall|c: int| 0 <= c < e.n_edges implies same_places(
            #[trigger] column_list(e.a@, c),
            column_list(f.a@, c),
        ) by {
            lemma_packed_column(e.n_eq as nat, u, c);
            lemma_packed_column(e.n_eq as nat, v, c);
            lemma_same_places(ar, lengths, s, t, c, rows);
        }
    }
}

} // verus!
