//! Rigid motions of the free nodes.

use crate::arithmetic::{
    count, count_of, difference_of, functional, minus, over, plus, product_of, quotient_of, sum_of,
    times, Arithmetic,
};
use crate::array::{Array2, Grid};
use crate::basis::{columns_of, orthonormal, orthonormalize, tall};
use crate::double::{Real, ONE, ZERO};
use crate::equilibrium::EquilibriumSystem;
use crate::qr::HUNDRED;
use crate::sparse::Csc;
use crate::vector::{norm, norm_of};
use vstd::prelude::*;

verus! {

/// Coordinate `d` of the mean of the first `k` positions.
pub open spec fn centroid_upto<A: Arithmetic>(ar: A, x: Grid, d: int, k: int) -> Real
    decreases k,
{
    if k <= 0 {
        Real { bits: ZERO }
    } else {
        sum_of(
            ar,
            centroid_upto(ar, x, d, k - 1),
            quotient_of(ar, x.at(k - 1, d), count_of(ar, x.rows as u64)),
        )
    }
}

/// Coordinate `d` of position `i`, seen from the mean.
pub open spec fn arm<A: Arithmetic>(ar: A, x: Grid, i: int, d: int) -> Real {
    difference_of(ar, x.at(i, d), centroid_upto(ar, x, d, x.rows as int))
}

/// What motion `j` does to coordinate `d` of position `i`: the first three motions are
/// along the axes, the last three turn about them.
pub open spec fn rigid_motion<A: Arithmetic>(ar: A, x: Grid, j: int, i: int, d: int) -> Real {
    if j < 3 {
        Real {
            bits: if d == j {
                ONE
            } else {
                ZERO
            },
        }
    } else {
        let axis = j - 3;
        if d == axis {
            Real { bits: ZERO }
        } else if d == (axis + 1) % 3 {
            arm(ar, x, i, (axis + 2) % 3).negated()
        } else {
            arm(ar, x, i, (axis + 1) % 3)
        }
    }
}

/// Motion `j` as a vector over the free coordinates, one axis after the other.
pub open spec fn rigid_vector<A: Arithmetic>(ar: A, x: Grid, j: int) -> Seq<Real> {
    Seq::new(
        3 * x.rows,
        |k: int| rigid_motion(ar, x, j, k % (x.rows as int), k / (x.rows as int)),
    )
}

/// Whether a motion keeps all member lengths: its elongations are small on its own scale.
pub open spec fn admitted<A: Arithmetic>(ar: A, a: Csc, v: Seq<Real>, tolerance: Real) -> bool {
    let size = norm_of(ar, v);
    let allowed = product_of(
        ar,
        product_of(
            ar,
            product_of(ar, Real { bits: HUNDRED }, tolerance),
            norm_of(ar, a.values).larger(Real { bits: ONE }),
        ),
        size,
    );
    tolerance.below(size) && norm_of(ar, a.transposed().applied(ar, v)).at_most(allowed)
}

/// The admitted ones among the first `j` rigid motions.
pub open spec fn admitted_motions<A: Arithmetic>(
    ar: A,
    a: Csc,
    x: Grid,
    tolerance: Real,
    j: int,
) -> Seq<Seq<Real>>
    decreases j,
{
    if j <= 0 {
        Seq::empty()
    } else {
        let before = admitted_motions(ar, a, x, tolerance, j - 1);
        let v = rigid_vector(ar, x, j - 1);
        if admitted(ar, a, v, tolerance) {
            before.push(v)
        } else {
            before
        }
    }
}

/// Coordinate `d` of the mean of the positions.
fn centroid<A: Arithmetic>(ar: &A, x: &Array2, d: usize) -> (r: Real)
    requires
        d < x@.cols,
        x@.rows <= u64::MAX,
    ensures
        functional(*ar) ==> r == centroid_upto(*ar, x@, d as int, x@.rows as int),
{
    let n: usize = x.nrows();
    let mut r = Real { bits: ZERO };
    for i in 0..n
        invariant
            n == x@.rows,
            d < x@.cols,
            functional(*ar) ==> r == centroid_upto(*ar, x@, d as int, i as int),
    {
        let counted = count(ar, n as u64);
        let part = over(ar, x.cell(i, d), counted);
        r = plus(ar, r, part);
    }
    r
}

/// Motion `j` as a vector.
fn motion_vector<A: Arithmetic>(
    ar: &A,
    x: &Array2,
    cx: Real,
    cy: Real,
    cz: Real,
    j: usize,
) -> (r: Vec<Real>)
    requires
        x@.cols == 3,
        j < 6,
        3 * x@.rows <= usize::MAX,
        functional(*ar) ==> cx == centroid_upto(*ar, x@, 0, x@.rows as int),
        functional(*ar) ==> cy == centroid_upto(*ar, x@, 1, x@.rows as int),
        functional(*ar) ==> cz == centroid_upto(*ar, x@, 2, x@.rows as int),
    ensures
        r@.len() == 3 * x@.rows,
        functional(*ar) ==> r@ == rigid_vector(*ar, x@, j as int),
{
    let n: usize = x.nrows();
    let mut r: Vec<Real> = Vec::new();
    assert(0 * (n as int) == 0) by (nonlinear_arith);
    for d in 0..3usize
        invariant
            n == x@.rows,
            x@.cols == 3,
            j < 6,
            functional(*ar) ==> cx == centroid_upto(*ar, x@, 0, n as int),
            functional(*ar) ==> cy == centroid_upto(*ar, x@, 1, n as int),
            functional(*ar) ==> cz == centroid_upto(*ar, x@, 2, n as int),
            r@.len() == d * n,
            functional(*ar) ==> forall|k: int|
                0 <= k < r@.len() ==> #[trigger] r@[k] == rigid_vector(*ar, x@, j as int)[k],
    {
        for i in 0..n
            invariant
                d < 3,
                n == x@.rows,
                x@.cols == 3,
                j < 6,
                functional(*ar) ==> cx == centroid_upto(*ar, x@, 0, n as int),
                functional(*ar) ==> cy == centroid_upto(*ar, x@, 1, n as int),
                functional(*ar) ==> cz == centroid_upto(*ar, x@, 2, n as int),
                r@.len() == d * n + i,
                functional(*ar) ==> forall|k: int|
                    0 <= k < r@.len() ==> #[trigger] r@[k] == rigid_vector(*ar, x@, j as int)[k],
        {
            proof {
                vstd::arithmetic::div_mod::lemma_fundamental_div_mod_converse(
                    d * n + i,
                    n as int,
                    d as int,
                    i as int,
                );
                assert(0 <= d * n + i < 3 * n) by (nonlinear_arith)
                    requires
                        0 <= d < 3,
                        0 <= i < n,
                ;
            }
            let value = if j < 3 {
                if d == j {
                    Real { bits: ONE }
                } else {
                    Real { bits: ZERO }
                }
            } else {
                let axis: usize = j - 3;
                if d == axis {
                    Real { bits: ZERO }
                } else {
                    let after: usize = (axis + 1) % 3;
                    let other: usize = if d == after {
                        (axis + 2) % 3
                    } else {
                        after
                    };
                    let center = if other == 0 {
                        cx
                    } else if other == 1 {
                        cy
                    } else {
                        cz
                    };
                    let reach = minus(ar, x.cell(i, other), center);
                    if d == after {
                        reach.neg()
                    } else {
                        reach
                    }
                }
            };
            proof {
                if functional(*ar) {
                    assert(value == rigid_motion(*ar, x@, j as int, i as int, d as int));
                    assert(value == rigid_vector(*ar, x@, j as int)[d * n + i]);
                }
            }
            r.push(value);
        }
        assert(d * n + n == (d + 1) * n) by (nonlinear_arith);
    }
    proof {
        if functional(*ar) {
            assert(r@ =~= rigid_vector(*ar, x@, j as int));
        }
    }
    r
}

/// The orthonormal rigid motions of a system; there are none besides reaction rows.
pub open spec fn rigid_columns<A: Arithmetic>(ar: A, system: EquilibriumSystem, tolerance: Real) -> Seq<
    Seq<Real>,
> {
    if system.n_eq != 3 * system.n_free || system.n_free == 0 {
        Seq::empty()
    } else {
        let motions = admitted_motions(ar, system.a@, system.free_positions@, tolerance, 6);
        orthonormal(ar, motions, tolerance, motions.len() as int)
    }
}

/// An orthonormal basis of the rigid motions that the system admits.
///
/// A constrained free-node set does not admit global rigid motion, and reaction rows leave
/// no room for it: only a motion that itself keeps all member lengths is kept.
pub fn rigid_basis<A: Arithmetic>(ar: &A, system: &EquilibriumSystem, tolerance: Real) -> (r: Vec<
    Vec<Real>,
>)
    requires
        system.wf(),
    ensures
        tall(r@, system.n_eq as nat),
        r@.len() <= 6,
        system.n_eq != 3 * system.n_free || system.n_free == 0 ==> r@.len() == 0,
        functional(*ar) ==> columns_of(r@) == rigid_columns(*ar, *system, tolerance),
{
    if system.n_eq != 3 * system.n_free || system.n_free == 0 {
        let none: Vec<Vec<Real>> = Vec::new();
        assert(columns_of(none@) =~= Seq::<Seq<Real>>::empty());
        return none;
    }
    let x = &system.free_positions;
    let cx = centroid(ar, x, 0);
    let cy = centroid(ar, x, 1);
    let cz = centroid(ar, x, 2);
    let at = system.a.transpose();
    let base = norm(ar, &system.a.values).max(Real { bits: ONE });
    let mut accepted: Vec<Vec<Real>> = Vec::new();
    assert(columns_of(accepted@) =~= Seq::<Seq<Real>>::empty());
    for j in 0..6usize
        invariant
            system.wf(),
            *x == system.free_positions,
            system.n_eq == 3 * system.n_free,
            at.wf(),
            at@ == system.a@.transposed(),
            at.nrows == system.n_edges,
            at.ncols == system.n_eq,
            functional(*ar) ==> base == norm_of(*ar, system.a@.values).larger(
                Real { bits: ONE },
            ),
            functional(*ar) ==> cx == centroid_upto(*ar, x@, 0, x@.rows as int),
            functional(*ar) ==> cy == centroid_upto(*ar, x@, 1, x@.rows as int),
            functional(*ar) ==> cz == centroid_upto(*ar, x@, 2, x@.rows as int),
            tall(accepted@, system.n_eq as nat),
            accepted@.len() <= j,
            functional(*ar) ==> columns_of(accepted@) == admitted_motions(
                *ar,
                system.a@,
                x@,
                tolerance,
                j as int,
            ),
    {
        let v = motion_vector(ar, x, cx, cy, cz, j);
        let size = norm(ar, &v);
        let image = at.matvec(ar, &v);
        let elongation = norm(ar, &image);
        let part = times(ar, Real { bits: HUNDRED }, tolerance);
        let wider = times(ar, part, base);
        let allowed = times(ar, wider, size);
        if size.gt(tolerance) && elongation.le(allowed) {
            let ghost before = accepted@;
            accepted.push(v);
            assert(columns_of(accepted@) =~= columns_of(before).push(v@));
        }
    }
    orthonormalize(ar, &accepted, system.n_eq, tolerance)
}

} // verus!
