//! An arithmetic without rounding, and the algebra that holds in it.
//!
//! Laws of algebra are broken by rounding, and no pattern of 64 bits holds every number.  So
//! the laws that say what an algorithm is for are stated of an arithmetic that is exact in
//! another way: each pattern stands for an integer, integers that differ by a multiple of a
//! modulus count as the same, and each operation gives what it should, see
//! [`Exact::computes`].  Any identity that such an arithmetic keeps, for every modulus, is
//! one of the formulas that are computed.

use crate::arithmetic::{count_of, difference_of, product_of, quotient_of, sum_of, Arithmetic};
use crate::double::{Real, HALF, ONE, TWO, ZERO};
use crate::vector::dot_upto;
use vstd::prelude::*;

verus! {

/// What bit patterns stand for, up to multiples of a modulus.
pub ghost struct Exact {
    pub modulus: int,
    pub value: spec_fn(Real) -> int,
}

/// `k` times `n`.
pub open spec fn multiple(n: int, k: int) -> int {
    k * n
}

impl Exact {
    /// What `a` stands for.
    pub open spec fn of(self, a: Real) -> int {
        (self.value)(a)
    }

    /// Whether `x` is a multiple of the modulus.
    pub open spec fn nil(self, x: int) -> bool {
        exists|k: int| x == #[trigger] multiple(self.modulus, k)
    }

    /// Whether `x` and `y` count as the same.
    pub open spec fn same(self, x: int, y: int) -> bool {
        self.nil(x - y)
    }

    /// Whether something times `x` is one.
    pub open spec fn unit(self, x: int) -> bool {
        exists|y: int| self.nil(#[trigger] (x * y) - 1)
    }

    /// Whether sums, differences, products and quotients are what they should be.
    #[verifier::opaque]
    pub open spec fn computes<A: Arithmetic>(self, ar: A) -> bool {
        &&& forall|a: Real, b: Real|
            self.same(self.of(#[trigger] sum_of(ar, a, b)), self.of(a) + self.of(b))
        &&& forall|a: Real, b: Real|
            self.same(self.of(#[trigger] difference_of(ar, a, b)), self.of(a) - self.of(b))
        &&& forall|a: Real, b: Real|
            self.same(self.of(#[trigger] product_of(ar, a, b)), self.of(a) * self.of(b))
        &&& forall|a: Real, b: Real|
            self.unit(self.of(b)) ==> self.same(
                self.of(#[trigger] quotient_of(ar, a, b)) * self.of(b),
                self.of(a),
            )
        &&& forall|k: u64| self.same(self.of(#[trigger] count_of(ar, k)), k as int)
        &&& forall|a: Real| self.same(self.of(#[trigger] a.negated()), -self.of(a))
        &&& self.same(self.of(Real { bits: ZERO }), 0)
        &&& self.same(self.of(Real { bits: ONE }), 1)
        &&& self.same(self.of(Real { bits: TWO }), 2)
        &&& self.same(2 * self.of(Real { bits: HALF }), 1)
    }
}

/// `f(0) + f(1) + ... + f(k - 1)`.
pub open spec fn total_of(f: spec_fn(int) -> int, k: int) -> int
    decreases k,
{
    if k <= 0 {
        0
    } else {
        total_of(f, k - 1) + f(k - 1)
    }
}

/// The product of two lists of numbers.
pub open spec fn inner(e: Exact, a: Seq<Real>, b: Seq<Real>) -> int {
    total_of(|i: int| e.of(a[i]) * e.of(b[i]), a.len() as int)
}

pub(crate) proof fn lemma_nil(e: Exact, x: int, k: int)
    requires
        x == k * e.modulus,
    ensures
        e.nil(x),
{
    assert(x == multiple(e.modulus, k));
}

pub(crate) proof fn lemma_nil_zero(e: Exact)
    ensures
        e.nil(0),
{
    assert(0 * e.modulus == 0) by (nonlinear_arith);
    lemma_nil(e, 0, 0);
}

/// Multiples of what is nil add up to what is nil.
pub(crate) proof fn lemma_combine(e: Exact, goal: int, a: int, x: int, b: int, y: int)
    requires
        e.nil(x),
        e.nil(y),
        goal == a * x + b * y,
    ensures
        e.nil(goal),
{
    let n = e.modulus;
    let j = choose|j: int| x == #[trigger] multiple(n, j);
    let k = choose|k: int| y == #[trigger] multiple(n, k);
    assert(a * (j * n) + b * (k * n) == (a * j + b * k) * n) by (nonlinear_arith);
    lemma_nil(e, goal, a * j + b * k);
}

pub(crate) proof fn lemma_combine3(
    e: Exact,
    goal: int,
    a: int,
    x: int,
    b: int,
    y: int,
    c: int,
    z: int,
)
    requires
        e.nil(x),
        e.nil(y),
        e.nil(z),
        goal == a * x + b * y + c * z,
    ensures
        e.nil(goal),
{
    lemma_combine(e, a * x + b * y, a, x, b, y);
    assert(1 * (a * x + b * y) == a * x + b * y);
    lemma_combine(e, goal, 1, a * x + b * y, c, z);
}

pub(crate) proof fn lemma_combine4(
    e: Exact,
    goal: int,
    a: int,
    x: int,
    b: int,
    y: int,
    c: int,
    z: int,
    d: int,
    w: int,
)
    requires
        e.nil(x),
        e.nil(y),
        e.nil(z),
        e.nil(w),
        goal == a * x + b * y + c * z + d * w,
    ensures
        e.nil(goal),
{
    let part = a * x + b * y + c * z;
    lemma_combine3(e, part, a, x, b, y, c, z);
    assert(1 * part == part);
    lemma_combine(e, goal, 1, part, d, w);
}

pub(crate) proof fn lemma_nil_times(e: Exact, a: int, x: int)
    requires
        e.nil(x),
    ensures
        e.nil(a * x),
{
    assert(a * x == a * x + 0 * x) by (nonlinear_arith);
    lemma_combine(e, a * x, a, x, 0, x);
}

pub(crate) proof fn lemma_nil_sum(e: Exact, x: int, y: int)
    requires
        e.nil(x),
        e.nil(y),
    ensures
        e.nil(x + y),
        e.nil(x - y),
{
    lemma_combine(e, x + y, 1, x, 1, y);
    lemma_combine(e, x - y, 1, x, -1, y);
}

pub(crate) proof fn lemma_same_trans(e: Exact, x: int, y: int, z: int)
    requires
        e.same(x, y),
        e.same(y, z),
    ensures
        e.same(x, z),
        e.same(z, x),
{
    lemma_nil_sum(e, x - y, y - z);
    lemma_combine(e, z - x, -1, x - y, -1, y - z);
}

pub(crate) proof fn lemma_same_sym(e: Exact, x: int, y: int)
    requires
        e.same(x, y),
    ensures
        e.same(y, x),
{
    lemma_combine(e, y - x, -1, x - y, 0, x - y);
}

/// What is a unit can be divided out.
pub(crate) proof fn lemma_cancel(e: Exact, a: int, x: int)
    requires
        e.unit(a),
        e.nil(a * x),
    ensures
        e.nil(x),
{
    let y = choose|y: int| e.nil(#[trigger] (a * y) - 1);
    assert(x == y * (a * x) + (-x) * (a * y - 1)) by (nonlinear_arith);
    lemma_combine(e, x, y, a * x, -x, a * y - 1);
}

pub(crate) proof fn lemma_sum<A: Arithmetic>(e: Exact, ar: A, a: Real, b: Real)
    requires
        e.computes(ar),
    ensures
        e.same(e.of(sum_of(ar, a, b)), e.of(a) + e.of(b)),
{
    reveal(Exact::computes);
}

pub(crate) proof fn lemma_difference<A: Arithmetic>(e: Exact, ar: A, a: Real, b: Real)
    requires
        e.computes(ar),
    ensures
        e.same(e.of(difference_of(ar, a, b)), e.of(a) - e.of(b)),
{
    reveal(Exact::computes);
}

pub(crate) proof fn lemma_product<A: Arithmetic>(e: Exact, ar: A, a: Real, b: Real)
    requires
        e.computes(ar),
    ensures
        e.same(e.of(product_of(ar, a, b)), e.of(a) * e.of(b)),
{
    reveal(Exact::computes);
}

pub(crate) proof fn lemma_quotient<A: Arithmetic>(e: Exact, ar: A, a: Real, b: Real)
    requires
        e.computes(ar),
        e.unit(e.of(b)),
    ensures
        e.same(e.of(quotient_of(ar, a, b)) * e.of(b), e.of(a)),
{
    reveal(Exact::computes);
}

pub(crate) proof fn lemma_constants<A: Arithmetic>(e: Exact, ar: A)
    requires
        e.computes(ar),
    ensures
        e.same(e.of(Real { bits: ZERO }), 0),
        e.same(e.of(Real { bits: ONE }), 1),
        e.same(e.of(Real { bits: TWO }), 2),
        e.same(2 * e.of(Real { bits: HALF }), 1),
{
    reveal(Exact::computes);
}

pub(crate) proof fn lemma_negated<A: Arithmetic>(e: Exact, ar: A, a: Real)
    requires
        e.computes(ar),
    ensures
        e.same(e.of(a.negated()), -e.of(a)),
{
    reveal(Exact::computes);
}

/// `c + a b`, computed.
pub(crate) proof fn lemma_sum_product<A: Arithmetic>(e: Exact, ar: A, c: Real, a: Real, b: Real)
    requires
        e.computes(ar),
    ensures
        e.same(e.of(sum_of(ar, c, product_of(ar, a, b))), e.of(c) + e.of(a) * e.of(b)),
{
    let p = product_of(ar, a, b);
    lemma_product(e, ar, a, b);
    lemma_sum(e, ar, c, p);
    lemma_nil_sum(e, e.of(sum_of(ar, c, p)) - (e.of(c) + e.of(p)), e.of(p) - e.of(a) * e.of(b));
}

/// `c - a b`, computed.
pub(crate) proof fn lemma_difference_product<A: Arithmetic>(
    e: Exact,
    ar: A,
    c: Real,
    a: Real,
    b: Real,
)
    requires
        e.computes(ar),
    ensures
        e.same(e.of(difference_of(ar, c, product_of(ar, a, b))), e.of(c) - e.of(a) * e.of(b)),
{
    let p = product_of(ar, a, b);
    lemma_product(e, ar, a, b);
    lemma_difference(e, ar, c, p);
    lemma_nil_sum(
        e,
        e.of(difference_of(ar, c, p)) - (e.of(c) - e.of(p)),
        e.of(p) - e.of(a) * e.of(b),
    );
}

pub(crate) proof fn lemma_total_equal(f: spec_fn(int) -> int, g: spec_fn(int) -> int, k: int)
    requires
        forall|i: int| 0 <= i < k ==> #[trigger] f(i) == g(i),
    ensures
        total_of(f, k) == total_of(g, k),
    decreases k,
{
    if k > 0 {
        lemma_total_equal(f, g, k - 1);
        assert(f(k - 1) == g(k - 1));
    }
}

pub(crate) proof fn lemma_total_same(
    e: Exact,
    f: spec_fn(int) -> int,
    g: spec_fn(int) -> int,
    k: int,
)
    requires
        forall|i: int| 0 <= i < k ==> e.same(#[trigger] f(i), g(i)),
    ensures
        e.same(total_of(f, k), total_of(g, k)),
    decreases k,
{
    if k > 0 {
        lemma_total_same(e, f, g, k - 1);
        assert(e.same(f(k - 1), g(k - 1)));
        lemma_nil_sum(e, total_of(f, k - 1) - total_of(g, k - 1), f(k - 1) - g(k - 1));
    } else {
        lemma_nil_zero(e);
    }
}

/// Totals of `a f(i) + b g(i)`.
pub(crate) proof fn lemma_total_linear(
    f: spec_fn(int) -> int,
    g: spec_fn(int) -> int,
    a: int,
    b: int,
    k: int,
)
    ensures
        total_of(|i: int| a * f(i) + b * g(i), k) == a * total_of(f, k) + b * total_of(g, k),
    decreases k,
{
    if k > 0 {
        lemma_total_linear(f, g, a, b, k - 1);
        assert(a * (total_of(f, k - 1) + f(k - 1)) + b * (total_of(g, k - 1) + g(k - 1)) == a
            * total_of(f, k - 1) + b * total_of(g, k - 1) + (a * f(k - 1) + b * g(k - 1)))
            by (nonlinear_arith);
    } else {
        assert(a * 0 + b * 0 == 0) by (nonlinear_arith);
    }
}

pub(crate) proof fn lemma_total_zero(f: spec_fn(int) -> int, k: int)
    requires
        forall|i: int| 0 <= i < k ==> #[trigger] f(i) == 0,
    ensures
        total_of(f, k) == 0,
    decreases k,
{
    if k > 0 {
        lemma_total_zero(f, k - 1);
        assert(f(k - 1) == 0);
    }
}

/// A total of which one term alone may not vanish.
pub(crate) proof fn lemma_total_single(f: spec_fn(int) -> int, k: int, c: int)
    requires
        0 <= c < k,
        forall|i: int| 0 <= i < k && i != c ==> #[trigger] f(i) == 0,
    ensures
        total_of(f, k) == f(c),
    decreases k,
{
    if c < k - 1 {
        lemma_total_single(f, k - 1, c);
        assert(f(k - 1) == 0);
    } else {
        lemma_total_zero(f, k - 1);
    }
}

/// Totals of totals may be taken in either order.
pub(crate) proof fn lemma_total_swap(f: spec_fn(int, int) -> int, m: int, n: int)
    ensures
        total_of(|i: int| total_of(|j: int| f(i, j), n), m) == total_of(
            |j: int| total_of(|i: int| f(i, j), m),
            n,
        ),
    decreases m,
{
    let rows = |i: int| total_of(|j: int| f(i, j), n);
    let cols = |j: int| total_of(|i: int| f(i, j), m);
    if m <= 0 {
        assert forall|j: int| 0 <= j < n implies #[trigger] cols(j) == 0 by {}
        lemma_total_zero(cols, n);
    } else {
        lemma_total_swap(f, m - 1, n);
        let fewer = |j: int| total_of(|i: int| f(i, j), m - 1);
        let last = |j: int| f(m - 1, j);
        lemma_total_linear(fewer, last, 1, 1, n);
        let both = |j: int| 1 * fewer(j) + 1 * last(j);
        assert forall|j: int| 0 <= j < n implies #[trigger] cols(j) == both(j) by {
            let g = |i: int| f(i, j);
            assert(total_of(g, m) == total_of(g, m - 1) + g(m - 1));
        }
        lemma_total_equal(cols, both, n);
    }
}

/// The total of a list that was put together of two.
pub(crate) proof fn lemma_total_split(f: spec_fn(int) -> int, a: int, b: int)
    requires
        0 <= a,
        0 <= b,
    ensures
        total_of(f, a + b) == total_of(f, a) + total_of(|i: int| f(a + i), b),
    decreases b,
{
    if b > 0 {
        lemma_total_split(f, a, b - 1);
    }
}

/// A product of two lists, computed, is the sum of the products of their entries.
pub proof fn dot_products_add_up<A: Arithmetic>(e: Exact, ar: A, a: Seq<Real>, b: Seq<Real>, k: int)
    requires
        e.computes(ar),
    ensures
        e.same(
            e.of(dot_upto(ar, a, b, k)),
            total_of(|i: int| e.of(a[i]) * e.of(b[i]), k),
        ),
    decreases k,
{
    let f = |i: int| e.of(a[i]) * e.of(b[i]);
    if k <= 0 {
        lemma_constants(e, ar);
    } else {
        dot_products_add_up(e, ar, a, b, k - 1);
        let before = dot_upto(ar, a, b, k - 1);
        lemma_sum_product(e, ar, before, a[k - 1], b[k - 1]);
        lemma_nil_sum(
            e,
            e.of(dot_upto(ar, a, b, k)) - (e.of(before) + f(k - 1)),
            e.of(before) - total_of(f, k - 1),
        );
    }
}

} // verus!
