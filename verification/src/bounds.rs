//! Boxes on the unknowns of an inverse solve.

use crate::arithmetic::{functional, Arithmetic};
use crate::double::{Real, INFINITY, MINUS_ONE, NEG_INFINITY, ONE, ZERO};
use crate::error::{Complaint, Source, TheseusError};
use crate::vector::{all_finite, first_not_finite, less, multiply, products, subtract};
use vstd::prelude::*;

verus! {

/// Per-edge box on the inverse unknown (q or t).
#[derive(Debug)]
pub struct BoxBounds {
    pub lower: Vec<Real>,
    pub upper: Vec<Real>,
}

impl BoxBounds {
    /// Whether there is a nonempty interval for each of `n` unknowns.
    pub open spec fn holds(self, n: nat) -> bool {
        &&& self.lower@.len() == n
        &&& self.upper@.len() == n
        &&& forall|i: int| 0 <= i < n ==> (#[trigger] self.lower@[i]).at_most(self.upper@[i])
    }

    /// Whether some bound is finite.
    pub open spec fn finite_somewhere(self) -> bool {
        (exists|i: int| 0 <= i < self.lower@.len() && (#[trigger] self.lower@[i]).finite()) || (
        exists|i: int| 0 <= i < self.upper@.len() && (#[trigger] self.upper@[i]).finite())
    }

    /// Whether every entry of `x` lies in its interval.
    pub open spec fn contains(self, x: Seq<Real>) -> bool {
        &&& x.len() == self.lower@.len()
        &&& forall|i: int|
            0 <= i < x.len() ==> (#[trigger] x[i]).within(self.lower@[i], self.upper@[i])
    }

    /// Whether every entry of `x` that is a number lies in its interval.
    pub open spec fn admits(self, x: Seq<Real>) -> bool {
        &&& x.len() == self.lower@.len()
        &&& forall|i: int|
            0 <= i < x.len() ==> !(#[trigger] x[i]).nan() ==> x[i].within(
                self.lower@[i],
                self.upper@[i],
            )
    }

    /// `x` with every entry moved to the nearest point of its interval.
    pub open spec fn clipped(self, x: Seq<Real>) -> Seq<Real> {
        Seq::new(x.len(), |i: int| x[i].clamped(self.lower@[i], self.upper@[i]))
    }

    /// The box that admits every number.
    pub fn unconstrained(n: usize) -> (r: BoxBounds)
        ensures
            r.holds(n as nat),
            !r.finite_somewhere(),
            r.lower@ == Seq::new(n as nat, |i: int| Real { bits: NEG_INFINITY }),
            r.upper@ == Seq::new(n as nat, |i: int| Real { bits: INFINITY }),
    {
        let mut lower: Vec<Real> = Vec::new();
        lower.resize(n, Real { bits: NEG_INFINITY });
        let mut upper: Vec<Real> = Vec::new();
        upper.resize(n, Real { bits: INFINITY });
        proof {
            assert(lower@ =~= Seq::new(n as nat, |i: int| Real { bits: NEG_INFINITY }));
            assert(upper@ =~= Seq::new(n as nat, |i: int| Real { bits: INFINITY }));
        }
        BoxBounds { lower, upper }
    }

    /// Whether some bound is finite.
    pub fn has_finite(&self) -> (r: bool)
        ensures
            r == self.finite_somewhere(),
    {
        for i in 0..self.lower.len()
            invariant
                forall|k: int| 0 <= k < i ==> !(#[trigger] self.lower@[k]).finite(),
        {
            if self.lower[i].is_finite() {
                return true;
            }
        }
        for i in 0..self.upper.len()
            invariant
                forall|k: int| 0 <= k < i ==> !(#[trigger] self.upper@[k]).finite(),
                forall|k: int| 0 <= k < self.lower@.len() ==> !(#[trigger] self.lower@[k]).finite(),
        {
            if self.upper[i].is_finite() {
                return true;
            }
        }
        false
    }
}

impl Clone for BoxBounds {
    fn clone(&self) -> (r: BoxBounds)
        ensures
            r.lower@ == self.lower@,
            r.upper@ == self.upper@,
    {
        BoxBounds { lower: self.lower.clone(), upper: self.upper.clone() }
    }
}

/// Whether a list of this length can be read as one entry for each of `n` edges.
pub open spec fn broadcasts(len: nat, n: nat) -> bool {
    len == 0 || len == 1 || len == n
}

/// One entry for each of `n` edges: `fill` from no entry, the same from one.
pub open spec fn broadcast<T>(values: Seq<T>, n: nat, fill: T) -> Seq<T> {
    if values.len() == 0 {
        Seq::new(n, |i: int| fill)
    } else if values.len() == 1 {
        Seq::new(n, |i: int| values[0])
    } else {
        values
    }
}

/// One bound for each of `n` edges.
pub fn broadcast_f64(values: &Vec<Real>, n: usize, fill: Real) -> (r: Result<
    Vec<Real>,
    TheseusError,
>)
    ensures
        r is Ok <==> broadcasts(values@.len(), n as nat),
        r matches Ok(v) ==> v@ == broadcast(values@, n as nat, fill) && v@.len() == n,
        r matches Err(e) ==> e == TheseusError::Shape(
            Complaint::BoundList { found: values@.len() as usize, edges: n },
        ),
{
    if values.len() == 0 {
        let mut v: Vec<Real> = Vec::new();
        v.resize(n, fill);
        proof {
            assert(v@ =~= broadcast(values@, n as nat, fill));
        }
        Ok(v)
    } else if values.len() == 1 {
        let mut v: Vec<Real> = Vec::new();
        v.resize(n, values[0]);
        proof {
            assert(v@ =~= broadcast(values@, n as nat, fill));
        }
        Ok(v)
    } else if values.len() == n {
        Ok(values.clone())
    } else {
        Err(TheseusError::Shape(Complaint::BoundList { found: values.len(), edges: n }))
    }
}

/// One sign for each of `n` edges.
pub fn broadcast_i32(values: &Vec<i32>, n: usize) -> (r: Result<Vec<i32>, TheseusError>)
    ensures
        r is Ok <==> broadcasts(values@.len(), n as nat),
        r matches Ok(v) ==> v@ == broadcast(values@, n as nat, 0i32) && v@.len() == n,
        r matches Err(e) ==> e == TheseusError::Shape(
            Complaint::SignList { found: values@.len() as usize, edges: n },
        ),
{
    if values.len() == 0 {
        let mut v: Vec<i32> = Vec::new();
        v.resize(n, 0);
        proof {
            assert(v@ =~= broadcast(values@, n as nat, 0i32));
        }
        Ok(v)
    } else if values.len() == 1 {
        let mut v: Vec<i32> = Vec::new();
        v.resize(n, values[0]);
        proof {
            assert(v@ =~= broadcast(values@, n as nat, 0i32));
        }
        Ok(v)
    } else if values.len() == n {
        Ok(values.clone())
    } else {
        Err(TheseusError::Shape(Complaint::SignList { found: values.len(), edges: n }))
    }
}

/// The lower bound under a sign: a positive sign excludes negative numbers.
pub open spec fn signed_lower(sign: i32, lower: Real) -> Real {
    if sign > 0 {
        lower.larger(Real { bits: ZERO })
    } else {
        lower
    }
}

/// The upper bound under a sign: a negative sign excludes positive numbers.
pub open spec fn signed_upper(sign: i32, upper: Real) -> Real {
    if sign < 0 {
        upper.smaller(Real { bits: ZERO })
    } else {
        upper
    }
}

/// The lower bounds that signs and lower bounds make together.
pub open spec fn composed_lower(n: nat, signs: Seq<i32>, lower: Seq<Real>) -> Seq<Real> {
    Seq::new(
        n,
        |i: int|
            signed_lower(
                broadcast(signs, n, 0i32)[i],
                broadcast(lower, n, Real { bits: NEG_INFINITY })[i],
            ),
    )
}

/// The upper bounds that signs and upper bounds make together.
pub open spec fn composed_upper(n: nat, signs: Seq<i32>, upper: Seq<Real>) -> Seq<Real> {
    Seq::new(
        n,
        |i: int|
            signed_upper(
                broadcast(signs, n, 0i32)[i],
                broadcast(upper, n, Real { bits: INFINITY })[i],
            ),
    )
}

/// Whether no entry is NaN.
pub open spec fn all_numbers(v: Seq<Real>) -> bool {
    forall|i: int| 0 <= i < v.len() ==> !(#[trigger] v[i]).nan()
}

/// Whether no entry is NaN.
pub fn are_numbers(v: &Vec<Real>) -> (r: bool)
    ensures
        r == all_numbers(v@),
{
    for i in 0..v.len()
        invariant
            forall|k: int| 0 <= k < i ==> !(#[trigger] v@[k]).nan(),
    {
        if v[i].is_nan() {
            return false;
        }
    }
    true
}

/// Whether edge `i` is the first whose composed bounds admit nothing.
pub open spec fn first_empty(lo: Seq<Real>, hi: Seq<Real>, i: int) -> bool {
    &&& 0 <= i < lo.len()
    &&& hi[i].below(lo[i])
    &&& forall|k: int| 0 <= k < i ==> !hi[k].below(#[trigger] lo[k])
}

/// Whether `r` is the box that signs, lower and upper bounds make for `n` edges, or the
/// complaint that is due instead.
pub open spec fn composed(
    n: usize,
    signs: Seq<i32>,
    lower: Seq<Real>,
    upper: Seq<Real>,
    r: Result<BoxBounds, TheseusError>,
) -> bool {
    let lo = composed_lower(n as nat, signs, lower);
    let hi = composed_upper(n as nat, signs, upper);
    if !broadcasts(signs.len(), n as nat) {
        r == Err::<BoxBounds, _>(
            TheseusError::Shape(Complaint::SignList { found: signs.len() as usize, edges: n }),
        )
    } else if !broadcasts(lower.len(), n as nat) {
        r == Err::<BoxBounds, _>(
            TheseusError::Shape(Complaint::BoundList { found: lower.len() as usize, edges: n }),
        )
    } else if !broadcasts(upper.len(), n as nat) {
        r == Err::<BoxBounds, _>(
            TheseusError::Shape(Complaint::BoundList { found: upper.len() as usize, edges: n }),
        )
    } else {
        match r {
            Ok(b) => {
                &&& b.lower@ == lo
                &&& b.upper@ == hi
                &&& forall|i: int| 0 <= i < n ==> !hi[i].below(#[trigger] lo[i])
            },
            Err(e) => exists|i: usize|
                #![trigger lo[i as int]]
                {
                    &&& first_empty(lo, hi, i as int)
                    &&& e == TheseusError::Solver(
                        Complaint::EmptyInterval {
                            edge: i,
                            lower: lo[i as int],
                            upper: hi[i as int],
                        },
                    )
                },
        }
    }
}

/// Whether no interval that signs, lower and upper bounds make ends in NaN.
pub open spec fn sound(n: nat, signs: Seq<i32>, lower: Seq<Real>, upper: Seq<Real>) -> bool {
    broadcasts(signs.len(), n) && broadcasts(lower.len(), n) && broadcasts(upper.len(), n) ==> {
        &&& all_numbers(composed_lower(n, signs, lower))
        &&& all_numbers(composed_upper(n, signs, upper))
    }
}

/// Compose signs, lower and upper bounds into a per-edge box.
pub fn compose_box(n: usize, signs: &Vec<i32>, lower: &Vec<Real>, upper: &Vec<Real>) -> (r: Result<
    BoxBounds,
    TheseusError,
>)
    ensures
        composed(n, signs@, lower@, upper@, r),
        r matches Ok(b) ==> sound(n as nat, signs@, lower@, upper@) ==> b.holds(n as nat),
{
    let each_sign = match broadcast_i32(signs, n) {
        Ok(v) => v,
        Err(e) => {
            return Err(e);
        },
    };
    let each_lower = match broadcast_f64(lower, n, Real { bits: NEG_INFINITY }) {
        Ok(v) => v,
        Err(e) => {
            return Err(e);
        },
    };
    let each_upper = match broadcast_f64(upper, n, Real { bits: INFINITY }) {
        Ok(v) => v,
        Err(e) => {
            return Err(e);
        },
    };
    let ghost lo = composed_lower(n as nat, signs@, lower@);
    let ghost hi = composed_upper(n as nat, signs@, upper@);
    let mut low: Vec<Real> = Vec::new();
    let mut high: Vec<Real> = Vec::new();
    for i in 0..n
        invariant
            each_sign@ == broadcast(signs@, n as nat, 0i32),
            each_lower@ == broadcast(lower@, n as nat, Real { bits: NEG_INFINITY }),
            each_upper@ == broadcast(upper@, n as nat, Real { bits: INFINITY }),
            each_sign@.len() == n,
            each_lower@.len() == n,
            each_upper@.len() == n,
            lo == composed_lower(n as nat, signs@, lower@),
            hi == composed_upper(n as nat, signs@, upper@),
            broadcasts(signs@.len(), n as nat),
            broadcasts(lower@.len(), n as nat),
            broadcasts(upper@.len(), n as nat),
            low@.len() == i,
            high@.len() == i,
            forall|k: int| 0 <= k < i ==> #[trigger] low@[k] == lo[k],
            forall|k: int| 0 <= k < i ==> #[trigger] high@[k] == hi[k],
            forall|k: int| 0 <= k < i ==> !hi[k].below(#[trigger] lo[k]),
    {
        let sign: i32 = each_sign[i];
        let mut l = each_lower[i];
        let mut h = each_upper[i];
        if sign > 0 {
            l = l.max(Real { bits: ZERO });
        } else if sign < 0 {
            h = h.min(Real { bits: ZERO });
        }
        proof {
            assert(l == lo[i as int] && h == hi[i as int]);
        }
        if l.gt(h) {
            return Err(
                TheseusError::Solver(Complaint::EmptyInterval { edge: i, lower: l, upper: h }),
            );
        }
        low.push(l);
        high.push(h);
    }
    proof {
        assert(low@ =~= lo);
        assert(high@ =~= hi);
    }
    Ok(BoxBounds { lower: low, upper: high })
}

/// Whether an edge of this length turns bounds on its force density into bounds on its
/// force.
pub open spec fn usable_length(length: Real) -> bool {
    length.finite() && (Real { bits: ZERO }).below(length)
}

/// Whether `r` is the box of forces for a box of force densities, or the first length that
/// stands in the way.
pub open spec fn force_box_outcome<A: Arithmetic>(
    ar: A,
    q_bounds: BoxBounds,
    lengths: Seq<Real>,
    r: Result<BoxBounds, TheseusError>,
) -> bool {
    match r {
        Ok(b) => {
            &&& b.lower@.len() == lengths.len()
            &&& b.upper@.len() == lengths.len()
            &&& forall|i: int| 0 <= i < lengths.len() ==> usable_length(#[trigger] lengths[i])
            &&& functional(ar) ==> b.lower@ == products(ar, q_bounds.lower@, lengths)
            &&& functional(ar) ==> b.upper@ == products(ar, q_bounds.upper@, lengths)
        },
        Err(TheseusError::Solver(Complaint::UnusableLength { edge, length })) => {
            &&& edge < lengths.len()
            &&& length == lengths[edge as int]
            &&& !usable_length(length)
            &&& forall|i: int| 0 <= i < edge ==> usable_length(#[trigger] lengths[i])
        },
        Err(_) => false,
    }
}

/// Convert bounds on force densities to member-force bounds `t = L * q`.
///
/// The last alternative is for an arithmetic that does not keep order.
pub fn q_box_to_force_box<A: Arithmetic>(
    ar: &A,
    q_bounds: &BoxBounds,
    lengths: &Vec<Real>,
) -> (r: Result<BoxBounds, TheseusError>)
    requires
        q_bounds.lower@.len() == lengths@.len(),
        q_bounds.upper@.len() == lengths@.len(),
    ensures
        force_box_outcome(*ar, *q_bounds, lengths@, r),
{
    for edge in 0..lengths.len()
        invariant
            forall|i: int| 0 <= i < edge ==> usable_length(#[trigger] lengths@[i]),
    {
        let length = lengths[edge];
        if !length.is_finite() || length.le(Real { bits: ZERO }) {
            return Err(TheseusError::Solver(Complaint::UnusableLength { edge, length }));
        }
    }
    Ok(
        BoxBounds {
            lower: multiply(ar, &q_bounds.lower, lengths),
            upper: multiply(ar, &q_bounds.upper, lengths),
        },
    )
}

/// Whether `r` is this box, if no lower bound exceeds its upper bound, or else the first
/// edge where one does.
pub open spec fn ordered_outcome(b: BoxBounds, r: Result<BoxBounds, TheseusError>) -> bool {
    match r {
        Ok(x) => x == b && b.holds(b.lower@.len()),
        Err(TheseusError::Solver(Complaint::EmptyInterval { edge, lower, upper })) => {
            &&& edge < b.lower@.len()
            &&& lower == b.lower@[edge as int]
            &&& upper == b.upper@[edge as int]
            &&& !lower.at_most(upper)
            &&& forall|i: int| 0 <= i < edge ==> (#[trigger] b.lower@[i]).at_most(b.upper@[i])
        },
        Err(_) => false,
    }
}

/// Complains of the first edge whose lower bound exceeds its upper bound.
pub fn is_ordered(b: &BoxBounds) -> (r: Result<(), TheseusError>)
    requires
        b.lower@.len() == b.upper@.len(),
    ensures
        r is Ok <==> b.holds(b.lower@.len()),
        r matches Err(e) ==> ordered_outcome(*b, Err(e)),
{
    for edge in 0..b.lower.len()
        invariant
            b.lower@.len() == b.upper@.len(),
            forall|i: int| 0 <= i < edge ==> (#[trigger] b.lower@[i]).at_most(b.upper@[i]),
    {
        let lower = b.lower[edge];
        let upper = b.upper[edge];
        if !lower.le(upper) {
            return Err(TheseusError::Solver(Complaint::EmptyInterval { edge, lower, upper }));
        }
    }
    Ok(())
}

/// The box, if no lower bound exceeds its upper bound.  Bounds that were computed in an
/// arithmetic that does not keep the order may have changed places.
pub fn ordered(b: BoxBounds) -> (r: Result<BoxBounds, TheseusError>)
    requires
        b.lower@.len() == b.upper@.len(),
    ensures
        ordered_outcome(b, r),
{
    match is_ordered(&b) {
        Ok(_) => Ok(b),
        Err(e) => Err(e),
    }
}

/// Where a solve starts on an edge: one, with the sign that the bounds ask for, or zero.
pub open spec fn first_guess(lower: Real, upper: Real) -> Real {
    let zero = Real { bits: ZERO };
    if upper.at_most(zero) {
        Real { bits: MINUS_ONE }
    } else if zero.at_most(lower) {
        Real { bits: ONE }
    } else {
        zero
    }
}

/// A point of a box: one, minus one or zero, whichever has its sign, clipped to the box.
pub open spec fn start_in(bounds: BoxBounds) -> Seq<Real> {
    Seq::new(
        bounds.lower@.len(),
        |i: int|
            first_guess(bounds.lower@[i], bounds.upper@[i]).clamped(
                bounds.lower@[i],
                bounds.upper@[i],
            ),
    )
}

/// A point of the box to start from.
pub fn feasible_start(bounds: &BoxBounds) -> (r: Vec<Real>)
    requires
        bounds.holds(bounds.lower@.len()),
    ensures
        r@ == start_in(*bounds),
        bounds.contains(r@),
{
    let zero = Real { bits: ZERO };
    let mut r: Vec<Real> = Vec::new();
    for i in 0..bounds.lower.len()
        invariant
            bounds.holds(bounds.lower@.len()),
            zero == (Real { bits: ZERO }),
            r@.len() == i,
            forall|k: int|
                0 <= k < i ==> #[trigger] r@[k] == first_guess(
                    bounds.lower@[k],
                    bounds.upper@[k],
                ).clamped(bounds.lower@[k], bounds.upper@[k]),
            forall|k: int|
                0 <= k < i ==> (#[trigger] r@[k]).within(bounds.lower@[k], bounds.upper@[k]),
    {
        let lo = bounds.lower[i];
        let hi = bounds.upper[i];
        assert(bounds.lower@[i as int].at_most(bounds.upper@[i as int]));
        let guess = if hi.le(zero) {
            Real { bits: MINUS_ONE }
        } else if lo.ge(zero) {
            Real { bits: ONE }
        } else {
            zero
        };
        r.push(guess.clamp(lo, hi));
    }
    proof {
        assert(r@ =~= Seq::new(
            bounds.lower@.len(),
            |i: int|
                first_guess(bounds.lower@[i], bounds.upper@[i]).clamped(
                    bounds.lower@[i],
                    bounds.upper@[i],
                ),
        ));
    }
    r
}

/// Moves every entry to the nearest point of its interval.
pub fn clip_to_box(x: &Vec<Real>, bounds: &BoxBounds) -> (r: Vec<Real>)
    requires
        bounds.holds(x@.len()),
    ensures
        r@ == bounds.clipped(x@),
        r@.len() == x@.len(),
        bounds.admits(r@),
        all_numbers(x@) ==> bounds.contains(r@),
{
    let mut r: Vec<Real> = Vec::new();
    for i in 0..x.len()
        invariant
            bounds.holds(x@.len()),
            r@.len() == i,
            forall|k: int|
                0 <= k < i ==> #[trigger] r@[k] == x@[k].clamped(
                    bounds.lower@[k],
                    bounds.upper@[k],
                ),
            forall|k: int|
                0 <= k < i ==> !x@[k].nan() ==> (#[trigger] r@[k]).within(
                    bounds.lower@[k],
                    bounds.upper@[k],
                ),
    {
        assert(bounds.lower@[i as int].at_most(bounds.upper@[i as int]));
        r.push(x[i].clamp(bounds.lower[i], bounds.upper[i]));
    }
    proof {
        assert(r@ =~= bounds.clipped(x@));
    }
    r
}

/// Whether `b` is the box as seen from `x`.
pub open spec fn shifted<A: Arithmetic>(ar: A, bounds: BoxBounds, x: Seq<Real>, b: BoxBounds) -> bool {
    &&& b.lower@.len() == x.len()
    &&& b.upper@.len() == x.len()
    &&& functional(ar) ==> b.lower@ == less(ar, bounds.lower@, x)
    &&& functional(ar) ==> b.upper@ == less(ar, bounds.upper@, x)
}

/// The lower and upper ends of a box, each reduced by the entry of `x`.
///
/// There is no such box where the arithmetic does not keep order.
pub fn shift_box<A: Arithmetic>(ar: &A, bounds: &BoxBounds, x: &Vec<Real>) -> (r: BoxBounds)
    requires
        bounds.lower@.len() == x@.len(),
        bounds.upper@.len() == x@.len(),
    ensures
        shifted(*ar, *bounds, x@, r),
{
    BoxBounds { lower: subtract(ar, &bounds.lower, x), upper: subtract(ar, &bounds.upper, x) }
}

/// Whether `r` says that `x` has `n` finite entries, or why not.
pub open spec fn validated(
    x: Seq<Real>,
    n: nat,
    source: Source,
    r: Result<(), TheseusError>,
) -> bool {
    if x.len() != n {
        r == Err::<(), _>(
            TheseusError::Shape(
                Complaint::WrongCount { source, found: x.len() as usize, expected: n as usize },
            ),
        )
    } else {
        match r {
            Ok(_) => all_finite(x),
            Err(e) => exists|i: usize|
                #![trigger x[i as int]]
                {
                    &&& i < x.len()
                    &&& !x[i as int].finite()
                    &&& forall|k: int| 0 <= k < i ==> (#[trigger] x[k]).finite()
                    &&& e == TheseusError::Solver(Complaint::NotFinite { source, edge: i })
                },
        }
    }
}

/// Checks that a solver returned `n` finite values.
pub fn validate_unknown(x: &Vec<Real>, n: usize, source: Source) -> (r: Result<(), TheseusError>)
    ensures
        validated(x@, n as nat, source, r),
{
    if x.len() != n {
        return Err(
            TheseusError::Shape(
                Complaint::WrongCount { source, found: x.len(), expected: n },
            ),
        );
    }
    match first_not_finite(x) {
        Some(edge) => Err(TheseusError::Solver(Complaint::NotFinite { source, edge })),
        None => Ok(()),
    }
}

/// Numbers that are clipped to a box lie in it.
pub proof fn clipping_leads_into_the_box(bounds: BoxBounds, x: Seq<Real>)
    requires
        bounds.holds(x.len()),
        all_numbers(x),
    ensures
        bounds.contains(bounds.clipped(x)),
{
    let y = bounds.clipped(x);
    assert forall|i: int| 0 <= i < y.len() implies (#[trigger] y[i]).within(
        bounds.lower@[i],
        bounds.upper@[i],
    ) by {
        assert(bounds.lower@[i].at_most(bounds.upper@[i]));
        assert(!x[i].nan());
    }
}

/// What lies in a box, but for what is no number, stays where it is when clipped to it.
pub proof fn clipping_keeps_the_box(bounds: BoxBounds, x: Seq<Real>)
    requires
        bounds.admits(x),
    ensures
        bounds.clipped(x) == x,
{
    assert forall|i: int| 0 <= i < x.len() implies bounds.clipped(x)[i] == #[trigger] x[i] by {
        if !x[i].nan() {
            assert(x[i].within(bounds.lower@[i], bounds.upper@[i]));
        }
    }
    assert(bounds.clipped(x) =~= x);
}

/// Clipping twice is clipping once.
pub proof fn clipping_twice_is_clipping_once(bounds: BoxBounds, x: Seq<Real>)
    requires
        bounds.holds(x.len()),
    ensures
        bounds.clipped(bounds.clipped(x)) == bounds.clipped(x),
{
    let y = bounds.clipped(x);
    assert forall|i: int| 0 <= i < y.len() && !(#[trigger] y[i]).nan() implies y[i].within(
        bounds.lower@[i],
        bounds.upper@[i],
    ) by {
        assert(bounds.lower@[i].at_most(bounds.upper@[i]));
    }
    clipping_keeps_the_box(bounds, y);
}

/// Whether a value has its sign, or none, and lies within its bounds as far as they are
/// numbers.
pub open spec fn respects(x: Real, sign: i32, least: Real, most: Real) -> bool {
    &&& sign > 0 ==> (Real { bits: ZERO }).at_most(x)
    &&& sign < 0 ==> x.at_most(Real { bits: ZERO })
    &&& !least.nan() ==> least.at_most(x)
    &&& !most.nan() ==> x.at_most(most)
}

/// What lies in a composed box lies within the bounds that it is composed of, and on the
/// side of zero that the signs tell.
pub proof fn composed_boxes_respect_signs_and_bounds(
    n: usize,
    signs: Seq<i32>,
    lower: Seq<Real>,
    upper: Seq<Real>,
    bounds: BoxBounds,
    x: Seq<Real>,
)
    requires
        composed(n, signs, lower, upper, Ok(bounds)),
        sound(n as nat, signs, lower, upper),
        bounds.contains(x),
    ensures
        forall|i: int|
            0 <= i < n ==> respects(
                #[trigger] x[i],
                broadcast(signs, n as nat, 0i32)[i],
                broadcast(lower, n as nat, Real { bits: NEG_INFINITY })[i],
                broadcast(upper, n as nat, Real { bits: INFINITY })[i],
            ),
{
    assert forall|i: int| 0 <= i < n implies respects(
        #[trigger] x[i],
        broadcast(signs, n as nat, 0i32)[i],
        broadcast(lower, n as nat, Real { bits: NEG_INFINITY })[i],
        broadcast(upper, n as nat, Real { bits: INFINITY })[i],
    ) by {
        let lo = composed_lower(n as nat, signs, lower);
        let hi = composed_upper(n as nat, signs, upper);
        assert(x[i].within(bounds.lower@[i], bounds.upper@[i]));
        assert(bounds.lower@[i] == lo[i] && bounds.upper@[i] == hi[i]);
        assert(!lo[i].nan() && !hi[i].nan());
    }
}

} // verus!
