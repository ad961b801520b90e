//! Reproducible random probes and the null spaces that they find.

use crate::arithmetic::{
    cos, cosine_of, count, count_of, functional, ln, logarithm_of, product_of, root_of, sqrt, times,
    Arithmetic,
};
use crate::array::{fits, lemma_narrower_fits, Array2};
use crate::backend::{Backend, Svd};
use crate::basis::{
    columns_of, first_columns, from_columns, grid_of, orthonormal, orthonormalize, take_columns,
    tall, DEFAULT_TOL,
};
use crate::double::{Real, MIN_POSITIVE, ONE, ZERO};
use crate::error::{Complaint, TheseusError};
use crate::lsqr::{apply_pseudoinverse, apply_transpose_pseudoinverse, lsqr_of, operator};
use crate::sparse::{Csc, SparseColMatOwned};
use crate::vector::{all_finite, less, subtract};
use vstd::prelude::*;

verus! {

/// Where the sequence of random numbers starts, but for the dimension.
pub const SEED: u64 = 0x9E37_79B9_7F4A_7C15;

/// The multiplier that scrambles the state.
pub const SCRAMBLE: u64 = 0x2545_F491_4F6C_DD1D;

/// `2^-53`.
pub const ULP: u64 = 0x3CA0_0000_0000_0000;

/// Minus two.
pub const MINUS_TWO: u64 = 0xC000_0000_0000_0000;

/// A full turn in radians.
pub const TAU: u64 = 0x4019_21FB_5444_2D18;

/// The state that follows `state`.
pub open spec fn next_state(state: u64) -> u64 {
    let a = state ^ (state >> 12);
    let b = a ^ (a << 25);
    b ^ (b >> 27)
}

/// The random number in `[0, 1)` that goes with a state.
pub open spec fn uniform_at<A: Arithmetic>(ar: A, state: u64) -> Real {
    product_of(
        ar,
        count_of(ar, vstd::wrapping::u64_specs::wrapping_mul(state, SCRAMBLE) >> 11),
        Real { bits: ULP },
    )
}

/// The normally distributed number made of the numbers of two states.
pub open spec fn gaussian_at<A: Arithmetic>(ar: A, first: u64, second: u64) -> Real {
    let u1 = uniform_at(ar, first).larger(Real { bits: MIN_POSITIVE });
    product_of(
        ar,
        root_of(ar, product_of(ar, Real { bits: MINUS_TWO }, logarithm_of(ar, u1))),
        cosine_of(ar, product_of(ar, Real { bits: TAU }, uniform_at(ar, second))),
    )
}

/// The next random number in `[0, 1)`.
pub fn uniform<A: Arithmetic>(ar: &A, state: &mut u64) -> (r: Real)
    ensures
        *final(state) == next_state(*old(state)),
        functional(*ar) ==> r == uniform_at(*ar, *final(state)),
{
    let mut s: u64 = *state;
    s = s ^ (s >> 12);
    s = s ^ (s << 25);
    s = s ^ (s >> 27);
    *state = s;
    let bits: u64 = s.wrapping_mul(SCRAMBLE);
    let counted = count(ar, bits >> 11);
    times(ar, counted, Real { bits: ULP })
}

/// The next normally distributed random number.
pub fn gaussian<A: Arithmetic>(ar: &A, state: &mut u64) -> (r: Real)
    ensures
        *final(state) == next_state(next_state(*old(state))),
        functional(*ar) ==> r == gaussian_at(
            *ar,
            next_state(*old(state)),
            next_state(next_state(*old(state))),
        ),
{
    let u1 = uniform(ar, state).max(Real { bits: MIN_POSITIVE });
    let u2 = uniform(ar, state);
    let log = ln(ar, u1);
    let twice = times(ar, Real { bits: MINUS_TWO }, log);
    let radius = sqrt(ar, twice);
    let turn = times(ar, Real { bits: TAU }, u2);
    let along = cos(ar, turn);
    times(ar, radius, along)
}

/// The state after `n` steps.
pub open spec fn stepped(state: u64, n: nat) -> u64
    decreases n,
{
    if n == 0 {
        state
    } else {
        next_state(stepped(state, (n - 1) as nat))
    }
}

/// Random vector number `c` of the sequence from a seed.
pub open spec fn probe_vector<A: Arithmetic>(ar: A, seed: u64, dimension: nat, c: nat) -> Seq<Real> {
    Seq::new(
        dimension,
        |i: int|
            gaussian_at(
                ar,
                stepped(seed, (2 * (c * dimension + i) + 1) as nat),
                stepped(seed, (2 * (c * dimension + i) + 2) as nat),
            ),
    )
}

/// `v` less its component in the row space of a matrix, or in its column space if `left`.
pub open spec fn projection<A: Arithmetic>(
    ar: A,
    a: Csc,
    left: bool,
    v: Seq<Real>,
    tolerance: Real,
    max_iterations: nat,
) -> Seq<Real> {
    less(ar, v, lsqr_of(ar, a, operator(ar, a, left, v), left, tolerance, max_iterations).0)
}

/// Whether the component of `v` that is to be taken off it was found.
pub open spec fn projectable<A: Arithmetic>(
    ar: A,
    a: Csc,
    left: bool,
    v: Seq<Real>,
    tolerance: Real,
    max_iterations: nat,
) -> bool {
    all_finite(lsqr_of(ar, a, operator(ar, a, left, v), left, tolerance, max_iterations).0)
}

/// The size of the space that is projected.
pub open spec fn dimension_of(a: Csc, left: bool) -> nat {
    if left {
        a.nrows
    } else {
        a.ncols
    }
}

/// Projects `v` onto the null space of a matrix, or of its transpose if `left`.
pub fn project<A: Arithmetic>(
    ar: &A,
    a: &SparseColMatOwned,
    left: bool,
    v: &Vec<Real>,
    tolerance: Real,
    max_iterations: usize,
) -> (r: Result<Vec<Real>, TheseusError>)
    requires
        a.wf(),
        a.nrows < usize::MAX,
        v@.len() == dimension_of(a@, left),
    ensures
        match r {
            Ok(w) => w@.len() == v@.len() && (functional(*ar) ==> w@ == projection(
                *ar,
                a@,
                left,
                v@,
                tolerance,
                max_iterations as nat,
            ) && projectable(*ar, a@, left, v@, tolerance, max_iterations as nat)),
            Err(e) => e == TheseusError::Solver(Complaint::LsqrNotFinite) && (functional(*ar)
                ==> !projectable(*ar, a@, left, v@, tolerance, max_iterations as nat)),
        },
{
    let image = if left {
        a.transpose().matvec(ar, v)
    } else {
        a.matvec(ar, v)
    };
    let solved = if left {
        apply_transpose_pseudoinverse(ar, a, &image, tolerance, max_iterations)
    } else {
        apply_pseudoinverse(ar, a, &image, tolerance, max_iterations)
    };
    match solved {
        Ok(part) => Ok(subtract(ar, v, &part)),
        Err(e) => Err(e),
    }
}

/// The number of the first `k` values above a threshold.
pub open spec fn count_above(v: Seq<Real>, threshold: Real, k: int) -> nat
    decreases k,
{
    if k <= 0 {
        0
    } else {
        count_above(v, threshold, k - 1) + if threshold.below(v[k - 1]) {
            1nat
        } else {
            0nat
        }
    }
}

/// The number of values above a threshold.
pub fn number_above(v: &Vec<Real>, threshold: Real) -> (r: usize)
    ensures
        r == count_above(v@, threshold, v@.len() as int),
        r <= v@.len(),
{
    let mut r: usize = 0;
    for i in 0..v.len()
        invariant
            r == count_above(v@, threshold, i as int),
            r <= i,
    {
        if v[i].gt(threshold) {
            r = r + 1;
        }
    }
    r
}

/// The first singular value, or zero where there is none.
pub open spec fn leading(singular: Seq<Real>) -> Real {
    if singular.len() == 0 {
        Real { bits: ZERO }
    } else {
        singular[0]
    }
}

/// The singular value above which a direction counts.
pub open spec fn panel_threshold<A: Arithmetic>(ar: A, singular: Seq<Real>) -> Real {
    product_of(ar, Real { bits: DEFAULT_TOL }, leading(singular).larger(Real { bits: ONE }))
}

/// The projected random vectors.
pub open spec fn panel<A: Arithmetic>(
    ar: A,
    a: Csc,
    left: bool,
    probes: nat,
    tolerance: Real,
    max_iterations: nat,
) -> Seq<Seq<Real>> {
    let n = dimension_of(a, left);
    Seq::new(
        probes,
        |c: int|
            projection(
                ar,
                a,
                left,
                probe_vector(ar, SEED ^ (n as u64), n, c as nat),
                tolerance,
                max_iterations,
            ),
    )
}

/// Whether the random vectors can be projected.
pub open spec fn panel_projectable<A: Arithmetic>(
    ar: A,
    a: Csc,
    left: bool,
    probes: nat,
    tolerance: Real,
    max_iterations: nat,
) -> bool {
    let n = dimension_of(a, left);
    forall|c: nat|
        c < probes ==> projectable(
            ar,
            a,
            left,
            #[trigger] probe_vector(ar, SEED ^ (n as u64), n, c),
            tolerance,
            max_iterations,
        )
}

/// The smaller of two counts.
pub open spec fn fewer(a: nat, b: nat) -> nat {
    if a <= b {
        a
    } else {
        b
    }
}

/// The number of random vectors that are projected to find `wanted` modes.
pub open spec fn probe_count(dimension: nat, wanted: nat) -> nat {
    fewer(dimension, fewer(wanted + 8, usize::MAX as nat))
}

/// Whether `r` can be what is found of the null space from projected random vectors, whose
/// singular values come from the backend.
pub open spec fn panel_answer<A: Arithmetic>(
    ar: A,
    a: Csc,
    left: bool,
    wanted: nat,
    tolerance: Real,
    max_iterations: nat,
    singular: Seq<Real>,
    r: Result<Vec<Vec<Real>>, TheseusError>,
) -> bool {
    let n = dimension_of(a, left);
    let columns = panel(ar, a, left, probe_count(n, wanted), tolerance, max_iterations);
    let threshold = panel_threshold(ar, singular);
    let rank = count_above(singular, threshold, singular.len() as int);
    let basis = orthonormal(ar, columns, threshold, columns.len() as int);
    if rank < wanted {
        r == Err::<Vec<Vec<Real>>, _>(
            TheseusError::Solver(
                Complaint::PanelRank { found: rank as usize, wanted: wanted as usize },
            ),
        )
    } else if basis.len() < wanted {
        r == Err::<Vec<Vec<Real>>, _>(
            TheseusError::Solver(
                Complaint::PanelBasis { found: basis.len() as usize, wanted: wanted as usize },
            ),
        )
    } else {
        r matches Ok(cols) && columns_of(cols@) == first_columns(basis, wanted)
    }
}

/// Random vectors, projected onto the null space.
fn project_probes<A: Arithmetic>(
    ar: &A,
    a: &SparseColMatOwned,
    left: bool,
    probes: usize,
    tolerance: Real,
    max_iterations: usize,
) -> (r: Result<Vec<Vec<Real>>, TheseusError>)
    requires
        a.wf(),
        a.nrows < usize::MAX,
    ensures
        match r {
            Ok(cols) => {
                &&& tall(cols@, dimension_of(a@, left))
                &&& cols@.len() == probes
                &&& functional(*ar) ==> columns_of(cols@) == panel(
                    *ar,
                    a@,
                    left,
                    probes as nat,
                    tolerance,
                    max_iterations as nat,
                ) && panel_projectable(
                    *ar,
                    a@,
                    left,
                    probes as nat,
                    tolerance,
                    max_iterations as nat,
                )
            },
            Err(e) => e == TheseusError::Solver(Complaint::LsqrNotFinite) && (functional(*ar)
                ==> !panel_projectable(
                *ar,
                a@,
                left,
                probes as nat,
                tolerance,
                max_iterations as nat,
            )),
        },
{
    let n: usize = if left {
        a.nrows
    } else {
        a.ncols
    };
    let mut state: u64 = SEED ^ (n as u64);
    let ghost seed = state;
    let ghost goal = panel(
        *ar,
        a@,
        left,
        probes as nat,
        tolerance,
        max_iterations as nat,
    );
    let mut cols: Vec<Vec<Real>> = Vec::new();
    assert(2 * (0 * (n as int)) == 0) by (nonlinear_arith);
    for c in 0..probes
        invariant
            a.wf(),
            a.nrows < usize::MAX,
            n == dimension_of(a@, left),
            seed == SEED ^ (n as u64),
            state == stepped(seed, (2 * (c * n)) as nat),
            goal == panel(*ar, a@, left, probes as nat, tolerance, max_iterations as nat),
            tall(cols@, n as nat),
            cols@.len() == c,
            functional(*ar) ==> forall|k: int| 0 <= k < c ==> (#[trigger] cols@[k])@ == goal[k],
            functional(*ar) ==> panel_projectable(
                *ar,
                a@,
                left,
                c as nat,
                tolerance,
                max_iterations as nat,
            ),
    {
        let mut probe: Vec<Real> = Vec::new();
        for i in 0..n
            invariant
                c < probes,
                state == stepped(seed, (2 * (c * n + i)) as nat),
                probe@.len() == i,
                functional(*ar) ==> forall|k: int|
                    0 <= k < i ==> #[trigger] probe@[k] == probe_vector(
                        *ar,
                        seed,
                        n as nat,
                        c as nat,
                    )[k],
        {
            assert(0 <= c * n) by (nonlinear_arith)
                requires
                    0 <= c,
                    0 <= n,
            ;
            let value = gaussian(ar, &mut state);
            proof {
                let before = (2 * (c * n + i)) as nat;
                assert(stepped(seed, before + 1) == next_state(stepped(seed, before)));
                assert(stepped(seed, before + 2) == next_state(stepped(seed, before + 1)));
                assert((2 * (c * n + i) + 1) as nat == before + 1);
                assert((2 * (c * n + i) + 2) as nat == before + 2);
                assert((2 * (c * n + (i + 1))) as nat == before + 2);
            }
            probe.push(value);
        }
        proof {
            if functional(*ar) {
                assert(probe@ =~= probe_vector(*ar, seed, n as nat, c as nat));
            }
            assert(c * n + n == (c + 1) * n) by (nonlinear_arith);
        }
        match project(ar, a, left, &probe, tolerance, max_iterations) {
            Ok(w) => {
                cols.push(w);
            },
            Err(e) => {
                return Err(e);
            },
        }
    }
    proof {
        if functional(*ar) {
            assert(columns_of(cols@) =~= goal);
        }
    }
    Ok(cols)
}

/// What is found of the null space from projected random vectors with these singular
/// values.
///
/// The singular values provide the thin-panel rank check; orthonormalizing the already
/// projected columns preserves their verified kernel span.
pub fn accept_panel<A: Arithmetic>(
    ar: &A,
    columns: &Vec<Vec<Real>>,
    rows: usize,
    wanted: usize,
    singular: &Vec<Real>,
) -> (r: Result<Vec<Vec<Real>>, TheseusError>)
    requires
        tall(columns@, rows as nat),
    ensures
        r matches Ok(cols) ==> tall(cols@, rows as nat) && cols@.len() == wanted,
        r is Ok ==> wanted <= columns@.len(),
        functional(*ar) ==> ({
            let threshold = panel_threshold(*ar, singular@);
            let rank = count_above(singular@, threshold, singular@.len() as int);
            let basis = orthonormal(
                *ar,
                columns_of(columns@),
                threshold,
                columns@.len() as int,
            );
            if rank < wanted {
                r == Err::<Vec<Vec<Real>>, _>(
                    TheseusError::Solver(
                        Complaint::PanelRank { found: rank as usize, wanted },
                    ),
                )
            } else if basis.len() < wanted {
                r == Err::<Vec<Vec<Real>>, _>(
                    TheseusError::Solver(
                        Complaint::PanelBasis { found: basis.len() as usize, wanted },
                    ),
                )
            } else {
                r matches Ok(cols) && columns_of(cols@) == first_columns(basis, wanted as nat)
            }
        }),
{
    let first = if singular.len() == 0 {
        Real { bits: ZERO }
    } else {
        singular[0]
    };
    let threshold = times(ar, Real { bits: DEFAULT_TOL }, first.max(Real { bits: ONE }));
    let rank: usize = number_above(singular, threshold);
    if rank < wanted {
        return Err(TheseusError::Solver(Complaint::PanelRank { found: rank, wanted }));
    }
    let basis = orthonormalize(ar, columns, rows, threshold);
    if basis.len() < wanted {
        assert(functional(*ar) ==> columns_of(basis@).len() < wanted);
        return Err(
            TheseusError::Solver(Complaint::PanelBasis { found: basis.len(), wanted }),
        );
    }
    assert(columns_of(basis@).len() == basis@.len());
    Ok(take_columns(&basis, rows, wanted))
}

/// Whether `r` can be what is found of the null space, by what the backend says of the
/// projected random vectors.
pub open spec fn panel_outcome<A: Arithmetic, B: Backend>(
    ar: A,
    b: B,
    a: Csc,
    left: bool,
    wanted: nat,
    tolerance: Real,
    max_iterations: nat,
    r: Result<Vec<Vec<Real>>, TheseusError>,
) -> bool {
    let n = dimension_of(a, left);
    let probes = probe_count(n, wanted);
    if wanted == 0 {
        r matches Ok(cols) && cols@.len() == 0
    } else if !panel_projectable(ar, a, left, probes, tolerance, max_iterations) {
        r == Err::<Vec<Vec<Real>>, _>(TheseusError::Solver(Complaint::LsqrNotFinite))
    } else {
        exists|dense: Array2, reply: Result<Svd, TheseusError>|
            {
                &&& dense@ == grid_of(n, panel(ar, a, left, probes, tolerance, max_iterations))
                &&& #[trigger] call_ensures(B::svd, (&b, &dense, false), reply)
                &&& match reply {
                    Ok(svd) => panel_answer(
                        ar,
                        a,
                        left,
                        wanted,
                        tolerance,
                        max_iterations,
                        svd.singular@,
                        r,
                    ),
                    Err(e) => r == Err::<Vec<Vec<Real>>, _>(e),
                }
            }
    }
}

/// Finds `nullity` modes of the null space, but at most `max_modes`.
pub fn projected_panel<A: Arithmetic, B: Backend>(
    ar: &A,
    b: &B,
    a: &SparseColMatOwned,
    left: bool,
    nullity: usize,
    max_modes: usize,
    tolerance: Real,
    max_iterations: usize,
) -> (r: Result<Vec<Vec<Real>>, TheseusError>)
    requires
        a.wf(),
        a.nrows < usize::MAX,
        fits(dimension_of(a@, left), dimension_of(a@, left)),
    ensures
        r matches Ok(cols) ==> tall(cols@, dimension_of(a@, left)) && cols@.len() == fewer(
            nullity as nat,
            max_modes as nat,
        ),
        r matches Ok(cols) ==> cols@.len() <= dimension_of(a@, left),
        fewer(nullity as nat, max_modes as nat) == 0 ==> r is Ok,
        functional(*ar) ==> panel_outcome(
            *ar,
            *b,
            a@,
            left,
            fewer(nullity as nat, max_modes as nat),
            tolerance,
            max_iterations as nat,
            r,
        ),
{
    let n: usize = if left {
        a.nrows
    } else {
        a.ncols
    };
    let wanted: usize = if nullity <= max_modes {
        nullity
    } else {
        max_modes
    };
    if wanted == 0 {
        return Ok(Vec::new());
    }
    let more: usize = wanted.saturating_add(8);
    let probes: usize = if n <= more {
        n
    } else {
        more
    };
    let columns = match project_probes(ar, a, left, probes, tolerance, max_iterations) {
        Ok(cols) => cols,
        Err(e) => {
            return Err(e);
        },
    };
    proof {
        lemma_narrower_fits(n as nat, n as nat, probes as nat);
    }
    let dense = from_columns(n, &columns);
    let reply = b.svd(&dense, false);
    let ghost given = reply;
    assert(call_ensures(B::svd, (b, &dense, false), given));
    match reply {
        Ok(svd) => accept_panel(ar, &columns, n, wanted, &svd.singular),
        Err(e) => Err(e),
    }
}

} // verus!
