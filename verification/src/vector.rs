//! Vectors of doubles.

use crate::arithmetic::{
    difference_of, functional, minus, over, plus, product_of, quotient_of, root_of, sqrt, sum_of,
    times, Arithmetic,
};
use crate::double::{Real, ZERO};
use vstd::prelude::*;

verus! {

/// The sum of the squares of the first `k` entries, taken from left to right.
pub open spec fn squares<A: Arithmetic>(ar: A, v: Seq<Real>, k: int) -> Real
    decreases k,
{
    if k <= 0 {
        Real { bits: ZERO }
    } else {
        sum_of(ar, squares(ar, v, k - 1), product_of(ar, v[k - 1], v[k - 1]))
    }
}

/// The Euclidean norm.
pub open spec fn norm_of<A: Arithmetic>(ar: A, v: Seq<Real>) -> Real {
    root_of(ar, squares(ar, v, v.len() as int))
}

/// The sum of the products of the first `k` entries of `a` and `b`, from left to right.
pub open spec fn dot_upto<A: Arithmetic>(ar: A, a: Seq<Real>, b: Seq<Real>, k: int) -> Real
    decreases k,
{
    if k <= 0 {
        Real { bits: ZERO }
    } else {
        sum_of(ar, dot_upto(ar, a, b, k - 1), product_of(ar, a[k - 1], b[k - 1]))
    }
}

/// Every entry times `f`.
pub open spec fn scaled<A: Arithmetic>(ar: A, v: Seq<Real>, f: Real) -> Seq<Real> {
    Seq::new(v.len(), |i: int| product_of(ar, v[i], f))
}

/// Every entry over `f`.
pub open spec fn divided<A: Arithmetic>(ar: A, v: Seq<Real>, f: Real) -> Seq<Real> {
    Seq::new(v.len(), |i: int| quotient_of(ar, v[i], f))
}

/// `target + alpha * source`, entry by entry.
pub open spec fn moved<A: Arithmetic>(
    ar: A,
    target: Seq<Real>,
    alpha: Real,
    source: Seq<Real>,
) -> Seq<Real> {
    Seq::new(target.len(), |i: int| sum_of(ar, target[i], product_of(ar, alpha, source[i])))
}

/// `a - b`, entry by entry.
pub open spec fn less<A: Arithmetic>(ar: A, a: Seq<Real>, b: Seq<Real>) -> Seq<Real> {
    Seq::new(a.len(), |i: int| difference_of(ar, a[i], b[i]))
}

/// The products `a[i] * b[i]`.
pub open spec fn products<A: Arithmetic>(ar: A, a: Seq<Real>, b: Seq<Real>) -> Seq<Real> {
    Seq::new(a.len(), |i: int| product_of(ar, a[i], b[i]))
}

/// The quotients `a[i] / b[i]`.
pub open spec fn quotients<A: Arithmetic>(ar: A, a: Seq<Real>, b: Seq<Real>) -> Seq<Real> {
    Seq::new(a.len(), |i: int| quotient_of(ar, a[i], b[i]))
}

/// Every entry with its sign changed.
pub open spec fn negatives(v: Seq<Real>) -> Seq<Real> {
    Seq::new(v.len(), |i: int| v[i].negated())
}

/// The largest magnitude among the first `k` entries, but at least `base`; entries that
/// are not numbers do not count.
pub open spec fn peak(v: Seq<Real>, base: Real, k: int) -> Real
    decreases k,
{
    if k <= 0 {
        base
    } else {
        peak(v, base, k - 1).larger(v[k - 1].absolute())
    }
}

/// Whether every entry is finite.
pub open spec fn all_finite(v: Seq<Real>) -> bool {
    forall|i: int| 0 <= i < v.len() ==> (#[trigger] v[i]).finite()
}

/// The sum of the squares of the first `len` entries.
pub fn sum_of_squares<A: Arithmetic>(ar: &A, v: &Vec<Real>, len: usize) -> (r: Real)
    requires
        len <= v@.len(),
    ensures
        functional(*ar) ==> r == squares(*ar, v@, len as int),
{
    let mut total = Real { bits: ZERO };
    for i in 0..len
        invariant
            len <= v@.len(),
            functional(*ar) ==> total == squares(*ar, v@, i as int),
    {
        let square = times(ar, v[i], v[i]);
        total = plus(ar, total, square);
    }
    total
}

/// The Euclidean norm.
pub fn norm<A: Arithmetic>(ar: &A, v: &Vec<Real>) -> (r: Real)
    ensures
        functional(*ar) ==> r == norm_of(*ar, v@),
{
    let total = sum_of_squares(ar, v, v.len());
    sqrt(ar, total)
}

/// The sum of the products of the entries of two vectors.
pub fn dot<A: Arithmetic>(ar: &A, a: &Vec<Real>, b: &Vec<Real>) -> (r: Real)
    requires
        a@.len() == b@.len(),
    ensures
        functional(*ar) ==> r == dot_upto(*ar, a@, b@, a@.len() as int),
{
    let mut total = Real { bits: ZERO };
    for i in 0..a.len()
        invariant
            a@.len() == b@.len(),
            functional(*ar) ==> total == dot_upto(*ar, a@, b@, i as int),
    {
        let term = times(ar, a[i], b[i]);
        total = plus(ar, total, term);
    }
    total
}

/// Multiplies every entry by `factor`.
pub fn scale<A: Arithmetic>(ar: &A, v: &Vec<Real>, factor: Real) -> (r: Vec<Real>)
    ensures
        r@.len() == v@.len(),
        functional(*ar) ==> r@ == scaled(*ar, v@, factor),
{
    let mut r: Vec<Real> = Vec::new();
    for i in 0..v.len()
        invariant
            r@.len() == i,
            functional(*ar) ==> forall|k: int|
                0 <= k < i ==> #[trigger] r@[k] == product_of(*ar, v@[k], factor),
    {
        r.push(times(ar, v[i], factor));
    }
    proof {
        if functional(*ar) {
            assert(r@ =~= scaled(*ar, v@, factor));
        }
    }
    r
}

/// Divides every entry by `divisor`.
pub fn divide<A: Arithmetic>(ar: &A, v: &Vec<Real>, divisor: Real) -> (r: Vec<Real>)
    ensures
        r@.len() == v@.len(),
        functional(*ar) ==> r@ == divided(*ar, v@, divisor),
{
    let mut r: Vec<Real> = Vec::new();
    for i in 0..v.len()
        invariant
            r@.len() == i,
            functional(*ar) ==> forall|k: int|
                0 <= k < i ==> #[trigger] r@[k] == quotient_of(*ar, v@[k], divisor),
    {
        r.push(over(ar, v[i], divisor));
    }
    proof {
        if functional(*ar) {
            assert(r@ =~= divided(*ar, v@, divisor));
        }
    }
    r
}

/// `target + alpha * source`.
pub fn axpy<A: Arithmetic>(ar: &A, target: &Vec<Real>, alpha: Real, source: &Vec<Real>) -> (r: Vec<
    Real,
>)
    requires
        target@.len() == source@.len(),
    ensures
        r@.len() == target@.len(),
        functional(*ar) ==> r@ == moved(*ar, target@, alpha, source@),
{
    let mut r: Vec<Real> = Vec::new();
    for i in 0..target.len()
        invariant
            target@.len() == source@.len(),
            r@.len() == i,
            functional(*ar) ==> forall|k: int|
                0 <= k < i ==> #[trigger] r@[k] == sum_of(
                    *ar,
                    target@[k],
                    product_of(*ar, alpha, source@[k]),
                ),
    {
        let term = times(ar, alpha, source[i]);
        r.push(plus(ar, target[i], term));
    }
    proof {
        if functional(*ar) {
            assert(r@ =~= moved(*ar, target@, alpha, source@));
        }
    }
    r
}

/// `a - b`.
pub fn subtract<A: Arithmetic>(ar: &A, a: &Vec<Real>, b: &Vec<Real>) -> (r: Vec<Real>)
    requires
        a@.len() == b@.len(),
    ensures
        r@.len() == a@.len(),
        functional(*ar) ==> r@ == less(*ar, a@, b@),
{
    let mut r: Vec<Real> = Vec::new();
    for i in 0..a.len()
        invariant
            a@.len() == b@.len(),
            r@.len() == i,
            functional(*ar) ==> forall|k: int|
                0 <= k < i ==> #[trigger] r@[k] == difference_of(*ar, a@[k], b@[k]),
    {
        r.push(minus(ar, a[i], b[i]));
    }
    proof {
        if functional(*ar) {
            assert(r@ =~= less(*ar, a@, b@));
        }
    }
    r
}

/// The products of the entries of two vectors.
pub fn multiply<A: Arithmetic>(ar: &A, a: &Vec<Real>, b: &Vec<Real>) -> (r: Vec<Real>)
    requires
        a@.len() == b@.len(),
    ensures
        r@.len() == a@.len(),
        functional(*ar) ==> r@ == products(*ar, a@, b@),
{
    let mut r: Vec<Real> = Vec::new();
    for i in 0..a.len()
        invariant
            a@.len() == b@.len(),
            r@.len() == i,
            functional(*ar) ==> forall|k: int|
                0 <= k < i ==> #[trigger] r@[k] == product_of(*ar, a@[k], b@[k]),
    {
        r.push(times(ar, a[i], b[i]));
    }
    proof {
        if functional(*ar) {
            assert(r@ =~= products(*ar, a@, b@));
        }
    }
    r
}

/// Every entry with its sign changed.
pub fn negate(v: &Vec<Real>) -> (r: Vec<Real>)
    ensures
        r@ == negatives(v@),
{
    let mut r: Vec<Real> = Vec::new();
    for i in 0..v.len()
        invariant
            r@.len() == i,
            forall|k: int| 0 <= k < i ==> #[trigger] r@[k] == v@[k].negated(),
    {
        r.push(v[i].neg());
    }
    proof {
        assert(r@ =~= negatives(v@));
    }
    r
}

/// The largest magnitude of an entry, but at least `base`.
pub fn largest(v: &Vec<Real>, base: Real) -> (r: Real)
    ensures
        r == peak(v@, base, v@.len() as int),
{
    let mut r = base;
    for i in 0..v.len()
        invariant
            r == peak(v@, base, i as int),
    {
        r = r.max(v[i].abs());
    }
    r
}

/// The first entry that is not finite.
pub fn first_not_finite(v: &Vec<Real>) -> (r: Option<usize>)
    ensures
        r is None <==> all_finite(v@),
        r matches Some(i) ==> i < v@.len() && !v@[i as int].finite() && forall|k: int|
            0 <= k < i ==> (#[trigger] v@[k]).finite(),
{
    for i in 0..v.len()
        invariant
            forall|k: int| 0 <= k < i ==> (#[trigger] v@[k]).finite(),
    {
        if !v[i].is_finite() {
            return Some(i);
        }
    }
    None
}

/// `n` zeros.
pub fn zeros(n: usize) -> (r: Vec<Real>)
    ensures
        r@ == Seq::new(n as nat, |i: int| Real { bits: ZERO }),
        r@.len() == n,
{
    let mut r: Vec<Real> = Vec::new();
    r.resize(n, Real { bits: ZERO });
    proof {
        assert(r@ =~= Seq::new(n as nat, |i: int| Real { bits: ZERO }));
    }
    r
}

/// The entries from `start` up to `end`.
pub fn slice(v: &Vec<Real>, start: usize, end: usize) -> (r: Vec<Real>)
    requires
        start <= end <= v@.len(),
    ensures
        r@ == v@.subrange(start as int, end as int),
{
    let mut r: Vec<Real> = Vec::new();
    for i in start..end
        invariant
            start <= end <= v@.len(),
            r@ == v@.subrange(start as int, i as int),
    {
        r.push(v[i]);
        proof {
            assert(r@ =~= v@.subrange(start as int, i as int + 1));
        }
    }
    r
}

/// `v` followed by zeros up to the length `n`.
pub fn padded(v: &Vec<Real>, n: usize) -> (r: Vec<Real>)
    requires
        v@.len() <= n,
    ensures
        r@ == v@ + Seq::new((n - v@.len()) as nat, |i: int| Real { bits: ZERO }),
{
    let mut r = v.clone();
    r.resize(n, Real { bits: ZERO });
    proof {
        assert(r@ =~= v@ + Seq::new((n - v@.len()) as nat, |i: int| Real { bits: ZERO }));
    }
    r
}

} // verus!
