//! Least squares in a box by spectral projected gradients.

use crate::arithmetic::{
    difference_of, functional, minus, over, product_of, quotient_of, root_of, sqrt, times,
    Arithmetic,
};
use crate::backend::Backend;
use crate::bounds::{clip_to_box, validate_unknown, validated, BoxBounds};
use crate::double::{Real, ONE, ZERO};
use crate::error::{Source, TheseusError};
use crate::sparse::{Csc, SparseColMatOwned};
use crate::vector::{
    all_finite, axpy, dot, dot_upto, less, moved, squares, subtract, sum_of_squares, zeros,
};
use crate::weight::{inverse_applied, MetricWeight};
use vstd::prelude::*;

verus! {

/// Result from the box-constrained spectral projected-gradient solver.
#[derive(Debug)]
pub struct SpgBoxResult {
    pub q: Vec<Real>,
    pub iterations: usize,
    pub converged: bool,
}

/// What the iteration carries from step to step.
pub ghost struct SpgState {
    pub x: Seq<Real>,
    pub prev_x: Seq<Real>,
    pub prev_g: Seq<Real>,
    pub alpha: Real,
    pub iterations: nat,
    pub converged: bool,
}

/// The gradient of `1/2 |M x - p|^2 + 1/2 w |x|^2`, given `r` for `M x - p`.
pub open spec fn gradient_from<A: Arithmetic>(
    ar: A,
    m: Csc,
    w: Real,
    x: Seq<Real>,
    r: Seq<Real>,
) -> Seq<Real> {
    let g = m.transposed().applied(ar, r);
    if (Real { bits: ZERO }).below(w) {
        moved(ar, g, w, x)
    } else {
        g
    }
}

/// The length of the next step, from the last changes of point and gradient.
pub open spec fn spectral_step<A: Arithmetic>(
    ar: A,
    s: SpgState,
    g: Seq<Real>,
) -> Real {
    let dx = less(ar, s.x, s.prev_x);
    let dg = less(ar, g, s.prev_g);
    let xg = dot_upto(ar, dx, dg, dx.len() as int);
    let gg = dot_upto(ar, dg, dg, dg.len() as int);
    let zero = Real { bits: ZERO };
    if s.iterations > 0 && zero.below(gg) && zero.below(xg) {
        quotient_of(ar, xg, gg)
    } else {
        s.alpha
    }
}

/// The point `x - alpha g`, moved into the box.
pub open spec fn projected<A: Arithmetic>(
    ar: A,
    bounds: BoxBounds,
    x: Seq<Real>,
    alpha: Real,
    g: Seq<Real>,
) -> Seq<Real> {
    Seq::new(
        x.len(),
        |k: int|
            difference_of(ar, x[k], product_of(ar, alpha, g[k])).clamped(
                bounds.lower@[k],
                bounds.upper@[k],
            ),
    )
}

/// One step along the gradient `g`.
pub open spec fn spg_step<A: Arithmetic>(
    ar: A,
    bounds: BoxBounds,
    tol: Real,
    s: SpgState,
    g: Seq<Real>,
) -> SpgState {
    let alpha = spectral_step(ar, s, g);
    let trial = projected(ar, bounds, s.x, alpha, g);
    let change = less(ar, s.x, trial);
    SpgState {
        x: trial,
        prev_x: s.x,
        prev_g: g,
        alpha,
        iterations: s.iterations + 1,
        converged: root_of(ar, squares(ar, change, change.len() as int)).below(tol),
    }
}

/// The state before the first step.
pub open spec fn spg_start(bounds: BoxBounds, x0: Seq<Real>) -> SpgState {
    let nothing = Seq::new(x0.len(), |i: int| Real { bits: ZERO });
    SpgState {
        x: bounds.clipped(x0),
        prev_x: nothing,
        prev_g: nothing,
        alpha: Real { bits: ONE },
        iterations: 0,
        converged: false,
    }
}

/// The state after at most `k` steps without a weight.
pub open spec fn spg_upto<A: Arithmetic>(
    ar: A,
    m: Csc,
    p: Seq<Real>,
    w: Real,
    bounds: BoxBounds,
    tol: Real,
    x0: Seq<Real>,
    k: nat,
) -> SpgState
    decreases k,
{
    if k == 0 {
        spg_start(bounds, x0)
    } else {
        let s = spg_upto(ar, m, p, w, bounds, tol, x0, (k - 1) as nat);
        if s.converged {
            s
        } else {
            let r = less(ar, m.applied(ar, s.x), p);
            spg_step(ar, bounds, tol, s, gradient_from(ar, m, w, s.x, r))
        }
    }
}

proof fn lemma_spg_converged<A: Arithmetic>(
    ar: A,
    m: Csc,
    p: Seq<Real>,
    w: Real,
    bounds: BoxBounds,
    tol: Real,
    x0: Seq<Real>,
    k: nat,
    n: nat,
)
    requires
        k <= n,
        spg_upto(ar, m, p, w, bounds, tol, x0, k).converged,
    ensures
        spg_upto(ar, m, p, w, bounds, tol, x0, n) == spg_upto(ar, m, p, w, bounds, tol, x0, k),
    decreases n,
{
    if k < n {
        lemma_spg_converged(ar, m, p, w, bounds, tol, x0, k, (n - 1) as nat);
    }
}

/// The point `x - alpha g`, moved into the box.
fn project<A: Arithmetic>(
    ar: &A,
    bounds: &BoxBounds,
    x: &Vec<Real>,
    alpha: Real,
    g: &Vec<Real>,
) -> (r: Vec<Real>)
    requires
        bounds.holds(x@.len()),
        g@.len() == x@.len(),
    ensures
        r@.len() == x@.len(),
        bounds.admits(r@),
        functional(*ar) ==> r@ == projected(*ar, *bounds, x@, alpha, g@),
{
    let mut r: Vec<Real> = Vec::new();
    for k in 0..x.len()
        invariant
            bounds.holds(x@.len()),
            g@.len() == x@.len(),
            r@.len() == k,
            forall|i: int|
                0 <= i < k ==> !(#[trigger] r@[i]).nan() ==> r@[i].within(
                    bounds.lower@[i],
                    bounds.upper@[i],
                ),
            functional(*ar) ==> forall|i: int|
                0 <= i < k ==> #[trigger] r@[i] == projected(*ar, *bounds, x@, alpha, g@)[i],
    {
        let part = times(ar, alpha, g[k]);
        let moved_to = minus(ar, x[k], part);
        assert(bounds.lower@[k as int].at_most(bounds.upper@[k as int]));
        r.push(moved_to.clamp(bounds.lower[k], bounds.upper[k]));
    }
    proof {
        if functional(*ar) {
            assert(r@ =~= projected(*ar, *bounds, x@, alpha, g@));
        }
    }
    r
}

/// Whether `r` can be a residual weighed twice.
pub open spec fn weighed_twice<A: Arithmetic, B: Backend>(
    ar: A,
    b: B,
    weight: MetricWeight<B>,
    residual: Seq<Real>,
    r: Result<Vec<Real>, TheseusError>,
) -> bool {
    exists|once: Result<Vec<Real>, TheseusError>|
        {
            &&& #[trigger] inverse_applied(ar, b, weight, residual, once)
            &&& match once {
                Err(e) => r == Err::<Vec<Real>, _>(e),
                Ok(v) => inverse_applied(ar, b, weight, v@, r),
            }
        }
}

/// Whether `next` can follow `s` in one step in the geometric weight.
pub open spec fn weighted_spg_step<A: Arithmetic, B: Backend>(
    ar: A,
    b: B,
    m: Csc,
    p: Seq<Real>,
    w: Real,
    bounds: BoxBounds,
    tol: Real,
    weight: MetricWeight<B>,
    s: SpgState,
    next: Result<SpgState, TheseusError>,
) -> bool {
    exists|r: Result<Vec<Real>, TheseusError>|
        {
            &&& #[trigger] weighed_twice(ar, b, weight, less(ar, m.applied(ar, s.x), p), r)
            &&& match r {
                Err(e) => next == Err::<SpgState, _>(e),
                Ok(v) => next == Ok::<_, TheseusError>(
                    spg_step(ar, bounds, tol, s, gradient_from(ar, m, w, s.x, v@)),
                ),
            }
        }
}

/// Whether `s` can be the state after `k` steps in the geometric weight.
pub open spec fn weighted_spg_reaches<A: Arithmetic, B: Backend>(
    ar: A,
    b: B,
    m: Csc,
    p: Seq<Real>,
    w: Real,
    bounds: BoxBounds,
    tol: Real,
    weight: MetricWeight<B>,
    x0: Seq<Real>,
    k: nat,
    s: SpgState,
) -> bool
    decreases k,
{
    if k == 0 {
        s == spg_start(bounds, x0)
    } else {
        exists|before: SpgState|
            {
                &&& weighted_spg_reaches(
                    ar,
                    b,
                    m,
                    p,
                    w,
                    bounds,
                    tol,
                    weight,
                    x0,
                    (k - 1) as nat,
                    before,
                )
                &&& !before.converged
                &&& #[trigger] weighted_spg_step(
                    ar,
                    b,
                    m,
                    p,
                    w,
                    bounds,
                    tol,
                    weight,
                    before,
                    Ok(s),
                )
            }
    }
}

/// Whether `r` is the last state, if it is finite.
pub open spec fn spg_ends(n: nat, s: SpgState, r: Result<SpgBoxResult, TheseusError>) -> bool {
    match r {
        Ok(found) => {
            &&& validated(s.x, n, Source::Spg, Ok(()))
            &&& s.x == found.q@
            &&& s.iterations == found.iterations
            &&& s.converged == found.converged
        },
        Err(e) => validated(s.x, n, Source::Spg, Err(e)),
    }
}

/// Whether `r` can be what comes of the steps in the geometric weight: they go on until
/// they converge, are used up, or one fails.
pub open spec fn weighted_spg<A: Arithmetic, B: Backend>(
    ar: A,
    b: B,
    m: Csc,
    p: Seq<Real>,
    w: Real,
    bounds: BoxBounds,
    tol: Real,
    weight: MetricWeight<B>,
    x0: Seq<Real>,
    limit: nat,
    r: Result<SpgBoxResult, TheseusError>,
) -> bool {
    exists|k: nat, s: SpgState|
        {
            &&& #[trigger] weighted_spg_reaches(ar, b, m, p, w, bounds, tol, weight, x0, k, s)
            &&& k <= limit
            &&& if k == limit || s.converged {
                spg_ends(m.ncols, s, r)
            } else {
                r is Err && weighted_spg_step(
                    ar,
                    b,
                    m,
                    p,
                    w,
                    bounds,
                    tol,
                    weight,
                    s,
                    Err(r->Err_0),
                )
            }
        }
}

/// The number of steps allowed: at least one.
pub open spec fn spg_limit(max_iter: usize) -> nat {
    if max_iter == 0 {
        1
    } else {
        max_iter as nat
    }
}

/// Whether `r` can be what projected gradient steps return.
pub open spec fn spg_outcome<A: Arithmetic, B: Backend>(
    ar: A,
    b: B,
    m: Csc,
    p: Seq<Real>,
    w: Real,
    bounds: BoxBounds,
    max_iter: usize,
    tol: Real,
    x0: Seq<Real>,
    weight: Option<&MetricWeight<B>>,
    r: Result<SpgBoxResult, TheseusError>,
) -> bool {
    match weight {
        None => spg_ends(
            m.ncols,
            spg_upto(ar, m, p, w, bounds, tol, x0, spg_limit(max_iter)),
            r,
        ),
        Some(s) => weighted_spg(
            ar,
            b,
            m,
            p,
            w,
            bounds,
            tol,
            *s,
            x0,
            spg_limit(max_iter),
            r,
        ),
    }
}

/// A residual weighed twice.
fn weigh_twice<A: Arithmetic, B: Backend>(
    ar: &A,
    b: &B,
    weight: &MetricWeight<B>,
    residual: &Vec<Real>,
) -> (r: Result<Vec<Real>, TheseusError>)
    requires
        weight.wf(),
    ensures
        weighed_twice(*ar, *b, *weight, residual@, r),
        r matches Ok(v) ==> v@.len() == weight.n_eq,
{
    let solved = weight.apply_inverse(ar, b, residual);
    let ghost given = solved;
    assert(inverse_applied(*ar, *b, *weight, residual@, given));
    match solved {
        Ok(once) => weight.apply_inverse(ar, b, &once),
        Err(e) => Err(e),
    }
}

/// Minimises `1/2 |S^-1 (M x - p)|^2 + 1/2 w |x|^2` over the box; no weight stands for
/// `S = I`.
///
/// The gradient of the weighted objective is `M' S^-1 S^-1 (M x - p)`, since `S` is
/// symmetric.
pub fn solve_spg_on<A: Arithmetic, B: Backend>(
    ar: &A,
    b: &B,
    m_mat: &SparseColMatOwned,
    p: &Vec<Real>,
    w: Real,
    bounds: &BoxBounds,
    max_iter: usize,
    tol: Real,
    x0: &Vec<Real>,
    weight: Option<&MetricWeight<B>>,
) -> (r: Result<SpgBoxResult, TheseusError>)
    requires
        m_mat.wf(),
        m_mat.nrows < usize::MAX,
        p@.len() == m_mat.nrows,
        bounds.holds(m_mat.ncols as nat),
        x0@.len() == m_mat.ncols,
        weight matches Some(s) ==> s.wf() && s.n_eq == m_mat.nrows,
    ensures
        r matches Ok(found) ==> {
            &&& all_finite(found.q@)
            &&& bounds.contains(found.q@)
            &&& 1 <= found.iterations
            &&& found.iterations <= spg_limit(max_iter)
        },
        functional(*ar) ==> spg_outcome(
            *ar,
            *b,
            m_mat@,
            p@,
            w,
            *bounds,
            max_iter,
            tol,
            x0@,
            weight,
            r,
        ),
{
    let n: usize = m_mat.ncols;
    let m_t = m_mat.transpose();
    let mut x = clip_to_box(x0, bounds);
    let mut prev_x = zeros(n);
    let mut prev_g = zeros(n);
    let mut alpha = Real { bits: ONE };
    let mut iterations: usize = 0;
    let mut converged = false;
    let limit: usize = if max_iter == 0 {
        1
    } else {
        max_iter
    };
    let ghost exact = weight is None && functional(*ar);
    while iterations < limit && !converged
        invariant
            m_mat.wf(),
            m_t.wf(),
            m_t@ == m_mat@.transposed(),
            m_t.nrows == n,
            m_t.ncols == m_mat.nrows,
            n == m_mat.ncols,
            m_mat.nrows < usize::MAX,
            p@.len() == m_mat.nrows,
            bounds.holds(n as nat),
            x0@.len() == n,
            weight matches Some(s) ==> s.wf() && s.n_eq == m_mat.nrows,
            x@.len() == n,
            prev_x@.len() == n,
            prev_g@.len() == n,
            bounds.admits(x@),
            iterations <= limit,
            exact == (weight is None && functional(*ar)),
            exact ==> spg_upto(*ar, m_mat@, p@, w, *bounds, tol, x0@, iterations as nat) == (
            SpgState {
                x: x@,
                prev_x: prev_x@,
                prev_g: prev_g@,
                alpha,
                iterations: iterations as nat,
                converged,
            }),
            iterations == 0 ==> !converged,
            limit == spg_limit(max_iter),
            functional(*ar) && weight is Some ==> weighted_spg_reaches(
                *ar,
                *b,
                m_mat@,
                p@,
                w,
                *bounds,
                tol,
                *weight->0,
                x0@,
                iterations as nat,
                SpgState {
                    x: x@,
                    prev_x: prev_x@,
                    prev_g: prev_g@,
                    alpha,
                    iterations: iterations as nat,
                    converged,
                },
            ),
        decreases limit - iterations,
    {
        let ghost before = SpgState {
            x: x@,
            prev_x: prev_x@,
            prev_g: prev_g@,
            alpha,
            iterations: iterations as nat,
            converged,
        };
        let mx = m_mat.matvec(ar, &x);
        let mut r = subtract(ar, &mx, p);
        match weight {
            Some(s) => {
                let solved = weigh_twice(ar, b, s, &r);
                let ghost given = solved;
                assert(weighed_twice(*ar, *b, *s, r@, given));
                r = match solved {
                    Ok(v) => v,
                    Err(e) => {
                        let failed: Result<SpgBoxResult, TheseusError> = Err(e);
                        proof {
                            if functional(*ar) {
                                assert(weighed_twice(
                                    *ar,
                                    *b,
                                    *s,
                                    less(*ar, m_mat@.applied(*ar, before.x), p@),
                                    Err(failed->Err_0),
                                ));
                                assert(weighted_spg_step(
                                    *ar,
                                    *b,
                                    m_mat@,
                                    p@,
                                    w,
                                    *bounds,
                                    tol,
                                    *s,
                                    before,
                                    Err(failed->Err_0),
                                ));
                                assert(weighted_spg(
                                    *ar,
                                    *b,
                                    m_mat@,
                                    p@,
                                    w,
                                    *bounds,
                                    tol,
                                    *s,
                                    x0@,
                                    limit as nat,
                                    failed,
                                ));
                            }
                        }
                        return failed;
                    },
                };
            },
            None => {},
        }
        let ghost weighed = r;
        let mut g = m_t.matvec(ar, &r);
        if w.gt(Real { bits: ZERO }) {
            g = axpy(ar, &g, w, &x);
        }
        if iterations > 0 {
            let dx = subtract(ar, &x, &prev_x);
            let dg = subtract(ar, &g, &prev_g);
            let xg = dot(ar, &dx, &dg);
            let gg = dot(ar, &dg, &dg);
            if gg.gt(Real { bits: ZERO }) && xg.gt(Real { bits: ZERO }) {
                alpha = over(ar, xg, gg);
            }
        }
        let trial = project(ar, bounds, &x, alpha, &g);
        let change = subtract(ar, &x, &trial);
        let total = sum_of_squares(ar, &change, change.len());
        let size = sqrt(ar, total);
        prev_x = x;
        prev_g = g;
        x = trial;
        converged = size.lt(tol);
        iterations = iterations + 1;
        proof {
            if functional(*ar) && weight is Some {
                let after = SpgState {
                    x: x@,
                    prev_x: prev_x@,
                    prev_g: prev_g@,
                    alpha,
                    iterations: iterations as nat,
                    converged,
                };
                let s = *weight->0;
                assert(weighed_twice(
                    *ar,
                    *b,
                    s,
                    less(*ar, m_mat@.applied(*ar, before.x), p@),
                    Ok(weighed),
                ));
                assert(after == spg_step(
                    *ar,
                    *bounds,
                    tol,
                    before,
                    gradient_from(*ar, m_mat@, w, before.x, weighed@),
                ));
                assert(weighted_spg_step(
                    *ar,
                    *b,
                    m_mat@,
                    p@,
                    w,
                    *bounds,
                    tol,
                    s,
                    before,
                    Ok(after),
                ));
            }
        }
    }
    let ghost end = SpgState {
        x: x@,
        prev_x: prev_x@,
        prev_g: prev_g@,
        alpha,
        iterations: iterations as nat,
        converged,
    };
    proof {
        if exact && converged {
            lemma_spg_converged(
                *ar,
                m_mat@,
                p@,
                w,
                *bounds,
                tol,
                x0@,
                iterations as nat,
                limit as nat,
            );
        }
    }
    let r = match validate_unknown(&x, n, Source::Spg) {
        Ok(_) => Ok(SpgBoxResult { q: x, iterations, converged }),
        Err(e) => Err(e),
    };
    proof {
        if functional(*ar) {
            assert(spg_ends(n as nat, end, r));
            if weight is Some {
                assert(weighted_spg(
                    *ar,
                    *b,
                    m_mat@,
                    p@,
                    w,
                    *bounds,
                    tol,
                    *weight->0,
                    x0@,
                    limit as nat,
                    r,
                ));
            }
        }
    }
    r
}

} // verus!
