//! What rigid motions keep, and what prestress does to mechanisms.

use crate::arithmetic::{count_of, product_of, quotient_of, Arithmetic};
use crate::array::Grid;
use crate::double::{Real, ONE, ZERO};
use crate::entries::{entry, lemma_row_list_entry, list_entry, list_term};
use crate::exact::{
    lemma_combine3, lemma_constants, lemma_difference, lemma_negated, lemma_nil_sum,
    lemma_nil_times, lemma_nil_zero, lemma_product, lemma_quotient, lemma_same_trans, lemma_sum,
    lemma_sum_product, lemma_total_equal, lemma_total_linear, lemma_total_single, lemma_total_swap,
    total_of, Exact,
};
use crate::lengths::{lemma_free_incidence, lemma_three, lemma_total_listed, stretch, well_placed};
use crate::prestress::{
    class_of, class_threshold, edge_motion, edge_stiffness, free_place, mode_stiffness,
    relative_motion, restricted_stiffness, MechanismClass,
};
use crate::rigid::{arm, centroid_upto, rigid_motion, rigid_vector};
use crate::turning::lemma_swap_factors;
use crate::types::Problem;
use crate::vector::peak;
use crate::weight::column;
use vstd::prelude::*;

verus! {

/// The mean of the positions, times their number, is their sum.
pub proof fn means_add_up<A: Arithmetic>(e: Exact, ar: A, x: Grid, d: int, k: int)
    requires
        e.computes(ar),
        0 <= k <= x.rows,
        e.unit(e.of(count_of(ar, x.rows as u64))),
    ensures
        e.same(
            e.of(centroid_upto(ar, x, d, k)) * e.of(count_of(ar, x.rows as u64)),
            total_of(|i: int| e.of(x.at(i, d)), k),
        ),
    decreases k,
{
    let n = count_of(ar, x.rows as u64);
    let c = e.of(n);
    let f = |i: int| e.of(x.at(i, d));
    if k == 0 {
        lemma_constants(e, ar);
        lemma_nil_times(e, c, e.of(Real { bits: ZERO }) - 0);
        let z = e.of(Real { bits: ZERO });
        assert(c * (z - 0) == z * c) by (nonlinear_arith);
    } else {
        means_add_up(e, ar, x, d, k - 1);
        let before = centroid_upto(ar, x, d, k - 1);
        let share = quotient_of(ar, x.at(k - 1, d), n);
        lemma_quotient(e, ar, x.at(k - 1, d), n);
        lemma_sum(e, ar, before, share);
        let (s, b, q, t) = (
            e.of(centroid_upto(ar, x, d, k)),
            e.of(before),
            e.of(share),
            total_of(f, k - 1),
        );
        assert(s * c - (t + f(k - 1)) == c * (s - (b + q)) + (b * c - t) + (q * c - f(k - 1)))
            by (nonlinear_arith);
        lemma_combine3(
            e,
            s * c - (t + f(k - 1)),
            c,
            s - (b + q),
            1,
            b * c - t,
            1,
            q * c - f(k - 1),
        );
    }
}

/// What a motion moves position `i` apart from position `k` along an axis.
pub open spec fn motion_apart<A: Arithmetic>(
    e: Exact,
    ar: A,
    x: Grid,
    j: int,
    i: int,
    k: int,
    d: int,
) -> int {
    e.of(rigid_motion(ar, x, j, i, d)) - e.of(rigid_motion(ar, x, j, k, d))
}

/// How far position `i` is from position `k` along an axis.
pub open spec fn apart(e: Exact, x: Grid, i: int, k: int, d: int) -> int {
    e.of(x.at(i, d)) - e.of(x.at(k, d))
}

proof fn lemma_arms<A: Arithmetic>(e: Exact, ar: A, x: Grid, i: int, k: int, d: int)
    requires
        e.computes(ar),
    ensures
        e.same(e.of(arm(ar, x, i, d)) - e.of(arm(ar, x, k, d)), apart(e, x, i, k, d)),
{
    let c = centroid_upto(ar, x, d, x.rows as int);
    lemma_difference(e, ar, x.at(i, d), c);
    lemma_difference(e, ar, x.at(k, d), c);
    let (a, b) = (e.of(arm(ar, x, i, d)), e.of(arm(ar, x, k, d)));
    lemma_nil_sum(
        e,
        a - (e.of(x.at(i, d)) - e.of(c)),
        b - (e.of(x.at(k, d)) - e.of(c)),
    );
}

/// Rigid motions keep the distances of all positions, to first order: what moves two
/// positions apart is orthogonal to the line between them.
pub proof fn rigid_motions_keep_distances<A: Arithmetic>(
    e: Exact,
    ar: A,
    x: Grid,
    j: int,
    i: int,
    k: int,
)
    requires
        e.computes(ar),
        0 <= j < 6,
    ensures
        e.nil(
            total_of(|d: int| apart(e, x, i, k, d) * motion_apart(e, ar, x, j, i, k, d), 3),
        ),
{
    let f = |d: int| apart(e, x, i, k, d) * motion_apart(e, ar, x, j, i, k, d);
    lemma_three(f);
    lemma_nil_zero(e);
    if j < 3 {
        assert forall|d: int| 0 <= d < 3 implies #[trigger] f(d) == 0 by {
            let a = apart(e, x, i, k, d);
            assert(a * 0 == 0) by (nonlinear_arith);
        }
        assert(f(0) == 0 && f(1) == 0 && f(2) == 0);
    } else {
        let axis = j - 3;
        let (p, q) = ((axis + 1) % 3, (axis + 2) % 3);
        lemma_arms(e, ar, x, i, k, p);
        lemma_arms(e, ar, x, i, k, q);
        lemma_negated(e, ar, arm(ar, x, i, q));
        lemma_negated(e, ar, arm(ar, x, k, q));
        let (a, b) = (apart(e, x, i, k, p), apart(e, x, i, k, q));
        let (mp, mq) = (
            motion_apart(e, ar, x, j, i, k, p),
            motion_apart(e, ar, x, j, i, k, q),
        );
        let (ai, ak) = (e.of(arm(ar, x, i, q)), e.of(arm(ar, x, k, q)));
        // mp ~ -b, mq ~ a
        lemma_combine3(
            e,
            mp - (-b),
            1,
            e.of(arm(ar, x, i, q).negated()) - (-ai),
            -1,
            e.of(arm(ar, x, k, q).negated()) - (-ak),
            -1,
            (ai - ak) - b,
        );
        lemma_swap_factors(e, a, a, mp, -b);
        lemma_swap_factors(e, b, b, mq, a);
        assert(a * (-b) + b * a == 0) by (nonlinear_arith);
        lemma_nil_sum(e, a * mp - a * (-b), b * mq - b * a);
        assert(apart(e, x, i, k, axis) * 0 == 0) by (nonlinear_arith);
        assert(f(axis) == 0);
        assert(f(0) + f(1) + f(2) == f(axis) + f(p) + f(q)) by {
            if axis == 0 {
            } else if axis == 1 {
            } else {
                assert(axis == 2);
            }
        }
    }
}

/// A rigid motion stands, for position `i` and axis `d`, in the row `d n + i`, as the rows
/// of an equilibrium system do; the first three motions move all positions alike along one
/// axis.
pub proof fn rigid_motions_stand_in_their_rows<A: Arithmetic>(
    ar: A,
    x: Grid,
    j: int,
    i: int,
    d: int,
)
    requires
        0 <= i < x.rows,
        0 <= d < 3,
        0 <= j < 6,
    ensures
        rigid_vector(ar, x, j).len() == 3 * x.rows,
        rigid_vector(ar, x, j)[d * x.rows + i] == rigid_motion(ar, x, j, i, d),
        j < 3 ==> rigid_motion(ar, x, j, i, d) == (Real { bits: if d == j { ONE } else { ZERO } }),
{
    let n = x.rows as int;
    assert(0 <= d * n && d * n + n <= 3 * n) by (nonlinear_arith)
        requires
            0 <= d < 3,
            0 <= n,
    ;
    vstd::arithmetic::div_mod::lemma_fundamental_div_mod_converse(d * n + i, n, d, i);
}

proof fn lemma_free_place(free: Seq<usize>, node: int, k: int)
    requires
        0 <= k <= free.len(),
    ensures
        match free_place(free, node, k) {
            Some(i) => 0 <= i < k && free[i] == node,
            None => forall|i: int| 0 <= i < k ==> #[trigger] free[i] != node,
        },
    decreases k,
{
    if k > 0 {
        lemma_free_place(free, node, k - 1);
    }
}

/// What a mode moves a node along an axis: nothing where the node is not free.
spec fn node_motion(e: Exact, free: Seq<usize>, modes: Grid, axis: int, mode: int, node: int) -> int {
    match free_place(free, node, free.len() as int) {
        None => 0,
        Some(i) => e.of(modes.at(axis * free.len() + i, mode)),
    }
}

proof fn lemma_relative_motion<A: Arithmetic>(
    e: Exact,
    ar: A,
    ends: Seq<(u32, Real)>,
    free: Seq<usize>,
    modes: Grid,
    axis: int,
    mode: int,
    k: int,
)
    requires
        e.computes(ar),
        0 <= k <= ends.len(),
    ensures
        e.same(
            e.of(relative_motion(ar, ends, free, modes, axis, mode, k)),
            total_of(
                |l: int|
                    e.of(ends[l].1) * node_motion(e, free, modes, axis, mode, ends[l].0 as int),
                k,
            ),
        ),
    decreases k,
{
    let f = |l: int| e.of(ends[l].1) * node_motion(e, free, modes, axis, mode, ends[l].0 as int);
    if k == 0 {
        lemma_constants(e, ar);
    } else {
        lemma_relative_motion(e, ar, ends, free, modes, axis, mode, k - 1);
        let before = relative_motion(ar, ends, free, modes, axis, mode, k - 1);
        match free_place(free, ends[k - 1].0 as int, free.len() as int) {
            None => {
                assert(e.of(ends[k - 1].1) * 0 == 0) by (nonlinear_arith);
            },
            Some(i) => {
                let m = modes.at(axis * free.len() + i, mode);
                lemma_sum_product(e, ar, before, ends[k - 1].1, m);
                lemma_nil_sum(
                    e,
                    e.of(relative_motion(ar, ends, free, modes, axis, mode, k)) - (e.of(before)
                        + f(k - 1)),
                    e.of(before) - total_of(f, k - 1),
                );
            },
        }
    }
}

/// A list of rows and values, times what stands in the rows.
proof fn lemma_list_times(e: Exact, list: Seq<(u32, Real)>, g: spec_fn(int) -> int, n: int)
    requires
        0 <= n,
        forall|l: int| 0 <= l < list.len() ==> (#[trigger] list[l]).0 < n,
    ensures
        total_of(|l: int| e.of(list[l].1) * g(list[l].0 as int), list.len() as int) == total_of(
            |i: int| list_entry(e, list, i) * g(i),
            n,
        ),
{
    let m = list.len() as int;
    let c = |l: int, i: int| list_term(e, list, i, l) * g(i);
    let left = |l: int| e.of(list[l].1) * g(list[l].0 as int);
    let rows = |l: int| total_of(|i: int| c(l, i), n);
    assert forall|l: int| 0 <= l < m implies #[trigger] left(l) == rows(l) by {
        let row = |i: int| c(l, i);
        assert forall|i: int| 0 <= i < n && i != list[l].0 implies #[trigger] row(i) == 0 by {
            assert(0 * g(i) == 0) by (nonlinear_arith);
        }
        lemma_total_single(row, n, list[l].0 as int);
    }
    lemma_total_equal(left, rows, m);
    lemma_total_swap(c, m, n);
    let cols = |i: int| total_of(|l: int| c(l, i), m);
    let right = |i: int| list_entry(e, list, i) * g(i);
    assert forall|i: int| 0 <= i < n implies #[trigger] cols(i) == right(i) by {
        let t = |l: int| list_term(e, list, i, l);
        let scaled = |l: int| g(i) * t(l) + 0 * t(l);
        let col = |l: int| c(l, i);
        assert forall|l: int| 0 <= l < m implies #[trigger] col(l) == scaled(l) by {
            let (a, b) = (t(l), g(i));
            assert(a * b == b * a + 0 * a) by (nonlinear_arith);
        }
        lemma_total_equal(col, scaled, m);
        lemma_total_linear(t, t, g(i), 0, m);
        let (s, b) = (total_of(t, m), g(i));
        assert(b * s + 0 * s == s * b) by (nonlinear_arith);
    }
    lemma_total_equal(cols, right, n);
}

/// A mode moves the ends of an edge apart by the incidences of its free nodes times what the
/// mode moves these.
pub proof fn modes_stretch_edges<A: Arithmetic>(
    e: Exact,
    ar: A,
    problem: Problem,
    modes: Grid,
    axis: int,
    mode: int,
    c: int,
)
    requires
        e.computes(ar),
        problem.wf(),
        well_placed(problem),
        problem.topology.num_nodes <= u32::MAX,
        modes.rows == 3 * problem.n_free(),
        0 <= axis < 3,
        0 <= c < problem.topology.num_edges,
    ensures
        e.same(
            e.of(edge_motion(ar, problem, modes, axis, mode, c)),
            stretch(e, problem, column(modes, mode), axis, c),
        ),
{
    let m = problem.topology.incidence@;
    let free = problem.topology.free_node_indices@;
    let n = problem.topology.num_nodes as int;
    let nf = free.len() as int;
    let ends = m.row_list(c, m.nnz() as int);
    crate::sparse::lemma_row_lists_bounded(m, m.nnz() as int);
    lemma_relative_motion(e, ar, ends, free, modes, axis, mode, ends.len() as int);
    let g = |node: int| node_motion(e, free, modes, axis, mode, node);
    lemma_list_times(e, ends, g, n);
    let f = |l: int| e.of(ends[l].1) * node_motion(e, free, modes, axis, mode, ends[l].0 as int);
    let f2 = |l: int| e.of(ends[l].1) * g(ends[l].0 as int);
    lemma_total_equal(f, f2, ends.len() as int);
    let by_node = |node: int| list_entry(e, ends, node) * g(node);
    let by_entry = |node: int| entry(e, m, c, node) * g(node);
    assert forall|node: int| 0 <= node < n implies #[trigger] by_node(node) == by_entry(node) by {
        lemma_row_list_entry(e, m, c, node, m.nnz() as int);
    }
    lemma_total_equal(by_node, by_entry, n);
    assert forall|node: int|
        0 <= node < n && (forall|i: int| 0 <= i < free.len() ==> #[trigger] free[i] != node) implies
        #[trigger] by_entry(node) == 0 by {
        lemma_free_place(free, node, nf);
        assert(entry(e, m, c, node) * 0 == 0) by (nonlinear_arith);
    }
    lemma_total_listed(by_entry, free, n);
    let listed = |i: int| by_entry(free[i] as int);
    let goal = |i: int|
        entry(e, problem.topology.free_incidence@, c, i) * e.of(
            column(modes, mode)[axis * problem.n_free() + i],
        );
    assert forall|i: int| 0 <= i < nf implies #[trigger] listed(i) == goal(i) by {
        lemma_free_place(free, free[i] as int, nf);
        lemma_free_incidence(e, problem, c, i);
        assert(0 <= axis * nf && axis * nf + nf <= 3 * nf) by (nonlinear_arith)
            requires
                0 <= axis < 3,
                0 <= nf,
        ;
    }
    lemma_total_equal(listed, goal, nf);
}

/// What an edge shares in the stiffness between two modes.
pub open spec fn edge_share(
    e: Exact,
    problem: Problem,
    modes: Grid,
    left: int,
    right: int,
    c: int,
) -> int {
    total_of(
        |d: int|
            stretch(e, problem, column(modes, left), d, c) * stretch(
                e,
                problem,
                column(modes, right),
                d,
                c,
            ),
        3,
    )
}

proof fn lemma_edge_stiffness<A: Arithmetic>(
    e: Exact,
    ar: A,
    problem: Problem,
    q: Real,
    modes: Grid,
    left: int,
    right: int,
    c: int,
    axes: int,
)
    requires
        e.computes(ar),
        problem.wf(),
        well_placed(problem),
        problem.topology.num_nodes <= u32::MAX,
        modes.rows == 3 * problem.n_free(),
        0 <= c < problem.topology.num_edges,
        0 <= axes <= 3,
    ensures
        e.same(
            e.of(edge_stiffness(ar, problem, q, modes, left, right, c, axes)),
            e.of(q) * total_of(
                |d: int|
                    stretch(e, problem, column(modes, left), d, c) * stretch(
                        e,
                        problem,
                        column(modes, right),
                        d,
                        c,
                    ),
                axes,
            ),
        ),
    decreases axes,
{
    let f = |d: int|
        stretch(e, problem, column(modes, left), d, c) * stretch(
            e,
            problem,
            column(modes, right),
            d,
            c,
        );
    if axes == 0 {
        lemma_constants(e, ar);
        assert(e.of(q) * 0 == 0) by (nonlinear_arith);
    } else {
        lemma_edge_stiffness(e, ar, problem, q, modes, left, right, c, axes - 1);
        modes_stretch_edges(e, ar, problem, modes, axes - 1, left, c);
        modes_stretch_edges(e, ar, problem, modes, axes - 1, right, c);
        let (ml, mr) = (
            edge_motion(ar, problem, modes, axes - 1, left, c),
            edge_motion(ar, problem, modes, axes - 1, right, c),
        );
        let before = edge_stiffness(ar, problem, q, modes, left, right, c, axes - 1);
        let ql = product_of(ar, q, ml);
        lemma_product(e, ar, q, ml);
        lemma_sum_product(e, ar, before, ql, mr);
        let (sl, sr) = (
            stretch(e, problem, column(modes, left), axes - 1, c),
            stretch(e, problem, column(modes, right), axes - 1, c),
        );
        lemma_nil_zero(e);
        lemma_swap_factors(e, e.of(q), e.of(q), e.of(ml), sl);
        lemma_same_trans(e, e.of(ql), e.of(q) * e.of(ml), e.of(q) * sl);
        lemma_swap_factors(e, e.of(ql), e.of(q) * sl, e.of(mr), sr);
        let (now, b, t, u) = (
            e.of(edge_stiffness(ar, problem, q, modes, left, right, c, axes)),
            e.of(before),
            total_of(f, axes - 1),
            e.of(q),
        );
        assert((u * sl) * sr == u * (sl * sr)) by (nonlinear_arith);
        assert(u * (t + sl * sr) == u * t + u * (sl * sr)) by (nonlinear_arith);
        lemma_combine3(
            e,
            now - u * (t + sl * sr),
            1,
            now - (b + e.of(ql) * e.of(mr)),
            1,
            b - u * t,
            1,
            e.of(ql) * e.of(mr) - (u * sl) * sr,
        );
    }
}

proof fn lemma_mode_stiffness<A: Arithmetic>(
    e: Exact,
    ar: A,
    problem: Problem,
    lengths: Seq<Real>,
    t: Seq<Real>,
    modes: Grid,
    left: int,
    right: int,
    k: int,
)
    requires
        e.computes(ar),
        problem.wf(),
        well_placed(problem),
        problem.topology.num_nodes <= u32::MAX,
        modes.rows == 3 * problem.n_free(),
        0 <= k <= problem.topology.num_edges,
    ensures
        e.same(
            e.of(mode_stiffness(ar, problem, lengths, t, modes, left, right, k)),
            total_of(
                |c: int|
                    e.of(quotient_of(ar, t[c], lengths[c])) * edge_share(
                        e,
                        problem,
                        modes,
                        left,
                        right,
                        c,
                    ),
                k,
            ),
        ),
    decreases k,
{
    let f = |c: int|
        e.of(quotient_of(ar, t[c], lengths[c])) * edge_share(e, problem, modes, left, right, c);
    if k == 0 {
        lemma_constants(e, ar);
    } else {
        lemma_mode_stiffness(e, ar, problem, lengths, t, modes, left, right, k - 1);
        let q = quotient_of(ar, t[k - 1], lengths[k - 1]);
        lemma_edge_stiffness(e, ar, problem, q, modes, left, right, k - 1, 3);
        let before = mode_stiffness(ar, problem, lengths, t, modes, left, right, k - 1);
        let own = edge_stiffness(ar, problem, q, modes, left, right, k - 1, 3);
        lemma_sum(e, ar, before, own);
        let now = e.of(mode_stiffness(ar, problem, lengths, t, modes, left, right, k));
        lemma_combine3(
            e,
            now - (total_of(f, k - 1) + f(k - 1)),
            1,
            now - (e.of(before) + e.of(own)),
            1,
            e.of(before) - total_of(f, k - 1),
            1,
            e.of(own) - f(k - 1),
        );
    }
}

/// The stiffness that prestress gives to mechanisms: between two modes it is the sum, over
/// the edges, of force over length times the products of what the two modes stretch the
/// edge along each axis; and force over length, times the length, is the force.
pub proof fn prestress_stiffens_what_modes_stretch<A: Arithmetic>(
    e: Exact,
    ar: A,
    problem: Problem,
    lengths: Seq<Real>,
    t: Seq<Real>,
    modes: Grid,
    i: int,
    j: int,
)
    requires
        e.computes(ar),
        problem.wf(),
        well_placed(problem),
        problem.topology.num_nodes <= u32::MAX,
        modes.rows == 3 * problem.n_free(),
        0 <= i < modes.cols,
        0 <= j < modes.cols,
        forall|c: int|
            0 <= c < problem.topology.num_edges ==> e.unit(e.of(#[trigger] lengths[c])),
    ensures
        e.same(
            e.of(restricted_stiffness(ar, problem, lengths, t, modes).at(i, j)),
            total_of(
                |c: int|
                    e.of(quotient_of(ar, t[c], lengths[c])) * edge_share(
                        e,
                        problem,
                        modes,
                        i,
                        j,
                        c,
                    ),
                problem.topology.num_edges as int,
            ),
        ),
        forall|c: int|
            0 <= c < problem.topology.num_edges ==> e.same(
                e.of(#[trigger] quotient_of(ar, t[c], lengths[c])) * e.of(lengths[c]),
                e.of(t[c]),
            ),
{
    let n = problem.topology.num_edges as int;
    assert forall|c: int| 0 <= c < n implies e.same(
        e.of(#[trigger] quotient_of(ar, t[c], lengths[c])) * e.of(lengths[c]),
        e.of(t[c]),
    ) by {
        assert(e.unit(e.of(lengths[c])));
        lemma_quotient(e, ar, t[c], lengths[c]);
    }
    let (a, b) = if i <= j {
        (i, j)
    } else {
        (j, i)
    };
    lemma_mode_stiffness(e, ar, problem, lengths, t, modes, a, b, n);
    let f = |c: int|
        e.of(quotient_of(ar, t[c], lengths[c])) * edge_share(e, problem, modes, a, b, c);
    let g = |c: int|
        e.of(quotient_of(ar, t[c], lengths[c])) * edge_share(e, problem, modes, i, j, c);
    assert forall|c: int| 0 <= c < n implies #[trigger] f(c) == g(c) by {
        let u = |d: int|
            stretch(e, problem, column(modes, a), d, c) * stretch(
                e,
                problem,
                column(modes, b),
                d,
                c,
            );
        let v = |d: int|
            stretch(e, problem, column(modes, i), d, c) * stretch(
                e,
                problem,
                column(modes, j),
                d,
                c,
            );
        assert forall|d: int| 0 <= d < 3 implies #[trigger] u(d) == v(d) by {
            let (x, y) = (
                stretch(e, problem, column(modes, i), d, c),
                stretch(e, problem, column(modes, j), d, c),
            );
            assert(x * y == y * x) by (nonlinear_arith);
        }
        lemma_total_equal(u, v, 3);
    }
    lemma_total_equal(f, g, n);
}

/// A mode is stable where its stiffness is above `tolerance` times the largest magnitude
/// among the stiffnesses, or times one where that is larger; unstable where it is below the
/// opposite of that; and undecided between.
pub proof fn classes_go_by_the_largest_stiffness<A: Arithmetic>(
    ar: A,
    values: Seq<Real>,
    tolerance: Real,
    m: int,
    i: int,
)
    requires
        0 <= m < values.len(),
        0 <= i < values.len(),
        !tolerance.nan(),
        (Real { bits: 0x3CB0_0000_0000_0000 }).at_most(tolerance),
        (Real { bits: 0x3FF0_0000_0000_0000 }).at_most(values[m].absolute()),
        forall|k: int|
            0 <= k < values.len() ==> (#[trigger] values[k]).absolute().at_most(
                values[m].absolute(),
            ),
    ensures
        ({
            let allowed = product_of(ar, tolerance, values[m].absolute());
            let class = class_of(values[i], class_threshold(ar, values, tolerance));
            &&& allowed.below(values[i]) <==> class == MechanismClass::PrestressStable
            &&& !allowed.below(values[i]) && values[i].below(allowed.negated()) <==> class
                == MechanismClass::PrestressUnstable
        }),
{
    lemma_peak_from_one(values, m, values.len() as int);
}

proof fn lemma_peak_from_one(v: Seq<Real>, m: int, k: int)
    requires
        0 <= m < v.len(),
        0 <= k <= v.len(),
        (Real { bits: ONE }).at_most(v[m].absolute()),
        forall|i: int|
            0 <= i < v.len() ==> (#[trigger] v[i]).absolute().at_most(v[m].absolute()),
    ensures
        ({
            let p = peak(v, Real { bits: ONE }, k);
            &&& !p.nan()
            &&& p.bits < crate::double::SIGN
            &&& p.at_most(v[m].absolute())
            &&& m < k ==> p == v[m].absolute()
        }),
    decreases k,
{
    if k > 0 {
        lemma_peak_from_one(v, m, k - 1);
        assert(v[k - 1].absolute().at_most(v[m].absolute()));
    }
}

} // verus!
