//! Eigenvalues of small symmetric matrices by Jacobi rotations.

use crate::arithmetic::{
    angle_of, atan2, cos, cosine_of, difference_of, functional, minus, plus, product_of, sin,
    sine_of, sum_of, times, Arithmetic,
};
use crate::array::{fits, Array2, Grid};
use crate::double::{Real, EPSILON, HALF, ONE, TWO, ZERO};
use crate::error::{Complaint, TheseusError};
use vstd::prelude::*;

verus! {

/// The place of the largest magnitude above the diagonal, found so far.
pub ghost struct Pivot {
    pub size: Real,
    pub row: int,
    pub col: int,
}

/// The pivot after the entries of row `i` before column `j`, and all rows above, have been
/// looked at; the first of equals counts.
pub open spec fn pivot_upto(a: Grid, i: int, j: int) -> Pivot
    decreases i + 1, j,
{
    if i < 0 {
        Pivot { size: Real { bits: ZERO }, row: 0, col: 0 }
    } else if j <= i + 1 {
        pivot_upto(a, i - 1, a.cols as int)
    } else {
        let before = pivot_upto(a, i, j - 1);
        if before.size.below(a.at(i, j - 1).absolute()) {
            Pivot { size: a.at(i, j - 1).absolute(), row: i, col: j - 1 }
        } else {
            before
        }
    }
}

/// The largest magnitude above the diagonal.
pub open spec fn pivot_of(a: Grid) -> Pivot {
    pivot_upto(a, a.rows - 1, a.cols as int)
}

/// The largest magnitude in the rows above `i` and in row `i` before column `j`, but at
/// least one.
pub open spec fn magnitude_upto(a: Grid, i: int, j: int) -> Real
    decreases i + 1, j,
{
    if i < 0 {
        Real { bits: ONE }
    } else if j <= 0 {
        magnitude_upto(a, i - 1, a.cols as int)
    } else {
        magnitude_upto(a, i, j - 1).larger(a.at(i, j - 1).absolute())
    }
}

/// The magnitude below which an entry above the diagonal counts as zero.
pub open spec fn off_diagonal_threshold<A: Arithmetic>(ar: A, a: Grid, tolerance: Real) -> Real {
    product_of(
        ar,
        tolerance.larger(Real { bits: EPSILON }),
        magnitude_upto(a, a.rows - 1, a.cols as int),
    )
}

/// Half the angle that makes the entry at the pivot vanish.
pub open spec fn rotation_angle<A: Arithmetic>(ar: A, a: Grid, p: int, q: int) -> Real {
    product_of(
        ar,
        Real { bits: HALF },
        angle_of(
            ar,
            product_of(ar, Real { bits: TWO }, a.at(p, q)),
            difference_of(ar, a.at(q, q), a.at(p, p)),
        ),
    )
}

/// `c x - s y`.
pub open spec fn turned_first<A: Arithmetic>(ar: A, c: Real, s: Real, x: Real, y: Real) -> Real {
    difference_of(ar, product_of(ar, c, x), product_of(ar, s, y))
}

/// `s x + c y`.
pub open spec fn turned_second<A: Arithmetic>(ar: A, c: Real, s: Real, x: Real, y: Real) -> Real {
    sum_of(ar, product_of(ar, s, x), product_of(ar, c, y))
}

/// `c c app - 2 s c apq + s s aqq`.
pub open spec fn turned_pp<A: Arithmetic>(
    ar: A,
    c: Real,
    s: Real,
    app: Real,
    apq: Real,
    aqq: Real,
) -> Real {
    let cross = product_of(ar, product_of(ar, product_of(ar, Real { bits: TWO }, s), c), apq);
    sum_of(
        ar,
        difference_of(ar, product_of(ar, product_of(ar, c, c), app), cross),
        product_of(ar, product_of(ar, s, s), aqq),
    )
}

/// `s s app + 2 s c apq + c c aqq`.
pub open spec fn turned_qq<A: Arithmetic>(
    ar: A,
    c: Real,
    s: Real,
    app: Real,
    apq: Real,
    aqq: Real,
) -> Real {
    let cross = product_of(ar, product_of(ar, product_of(ar, Real { bits: TWO }, s), c), apq);
    sum_of(
        ar,
        sum_of(ar, product_of(ar, product_of(ar, s, s), app), cross),
        product_of(ar, product_of(ar, c, c), aqq),
    )
}

/// The matrix after the rotation in the plane of `p` and `q`.
pub open spec fn turned<A: Arithmetic>(ar: A, a: Grid, p: int, q: int) -> Grid {
    let angle = rotation_angle(ar, a, p, q);
    let c = cosine_of(ar, angle);
    let s = sine_of(ar, angle);
    Grid::generated(
        a.rows,
        a.cols,
        |i: int, j: int|
            if i == p && j == p {
                turned_pp(ar, c, s, a.at(p, p), a.at(p, q), a.at(q, q))
            } else if i == q && j == q {
                turned_qq(ar, c, s, a.at(p, p), a.at(p, q), a.at(q, q))
            } else if (i == p && j == q) || (i == q && j == p) {
                Real { bits: ZERO }
            } else if j == p {
                turned_first(ar, c, s, a.at(i, p), a.at(i, q))
            } else if i == p {
                turned_first(ar, c, s, a.at(j, p), a.at(j, q))
            } else if j == q {
                turned_second(ar, c, s, a.at(i, p), a.at(i, q))
            } else if i == q {
                turned_second(ar, c, s, a.at(j, p), a.at(j, q))
            } else {
                a.at(i, j)
            },
    )
}

/// The vectors after the rotation of the columns `p` and `q`.
pub open spec fn turned_vectors<A: Arithmetic>(
    ar: A,
    v: Grid,
    c: Real,
    s: Real,
    p: int,
    q: int,
) -> Grid {
    Grid::generated(
        v.rows,
        v.cols,
        |i: int, j: int|
            if j == p {
                turned_first(ar, c, s, v.at(i, p), v.at(i, q))
            } else if j == q {
                turned_second(ar, c, s, v.at(i, p), v.at(i, q))
            } else {
                v.at(i, j)
            },
    )
}

/// The matrix and the vectors after at most `k` rotations, each at the pivot; nothing is
/// rotated any more once the pivot is small.
pub open spec fn rotations<A: Arithmetic>(ar: A, a: Grid, threshold: Real, k: nat) -> (Grid, Grid)
    decreases k,
{
    if k == 0 {
        (
            a,
            Grid::generated(
                a.rows,
                a.rows,
                |i: int, j: int|
                    Real {
                        bits: if i == j {
                            ONE
                        } else {
                            ZERO
                        },
                    },
            ),
        )
    } else {
        let (b, v) = rotations(ar, a, threshold, (k - 1) as nat);
        let pivot = pivot_of(b);
        if pivot.size.at_most(threshold) || !(Real { bits: ZERO }).below(pivot.size) {
            (b, v)
        } else {
            let angle = rotation_angle(ar, b, pivot.row, pivot.col);
            (
                turned(ar, b, pivot.row, pivot.col),
                turned_vectors(
                    ar,
                    v,
                    cosine_of(ar, angle),
                    sine_of(ar, angle),
                    pivot.row,
                    pivot.col,
                ),
            )
        }
    }
}

/// Whether `order` lists the first `n` indices once each.
pub open spec fn permutes(order: Seq<usize>, n: nat) -> bool {
    &&& order.len() == n
    &&& forall|i: int| 0 <= i < n ==> #[trigger] order[i] < n
    &&& forall|i: int, j: int| 0 <= i < j < n ==> #[trigger] order[i] != #[trigger] order[j]
}

/// Whether `order` lists diagonal places in ascending order, equals in order of place.
pub open spec fn ascends(order: Seq<usize>, a: Grid) -> bool {
    forall|i: int, j: int|
        0 <= i < j < order.len() ==> {
            let (l, r) = (#[trigger] order[i] as int, #[trigger] order[j] as int);
            a.at(l, l).below(a.at(r, r)) || (a.at(l, l).level(a.at(r, r)) && l < r)
        }
}

/// Whether the diagonal holds numbers only.
pub open spec fn diagonal_numbers(a: Grid) -> bool {
    forall|i: int| 0 <= i < a.rows ==> !(#[trigger] a.at(i, i)).nan()
}

/// The diagonal places in ascending order.
pub fn ascending_order(a: &Array2) -> (r: Vec<usize>)
    requires
        a@.rows == a@.cols,
    ensures
        permutes(r@, a@.rows),
        diagonal_numbers(a@) ==> ascends(r@, a@),
{
    let n: usize = a.nrows();
    let mut order: Vec<usize> = Vec::new();
    for k in 0..n
        invariant
            n == a@.rows,
            n == a@.cols,
            permutes(order@, k as nat),
            diagonal_numbers(a@) ==> ascends(order@, a@),
    {
        let value = a.cell(k, k);
        let mut place: usize = order.len();
        while place > 0 && value.lt(a.cell(order[place - 1], order[place - 1]))
            invariant
                k < n,
                n == a@.rows,
                n == a@.cols,
                permutes(order@, k as nat),
                place <= order@.len(),
                value == a@.at(k as int, k as int),
                forall|i: int|
                    place <= i < order@.len() ==> value.below(
                        a@.at(#[trigger] order@[i] as int, order@[i] as int),
                    ),
            decreases place,
        {
            place = place - 1;
        }
        let ghost before = order@;
        order.insert(place, k);
        proof {
            let after = order@;
            assert forall|i: int| 0 <= i < after.len() implies #[trigger] after[i] < k + 1 by {
                if i < place {
                    assert(after[i] == before[i]);
                } else if i > place {
                    assert(after[i] == before[i - 1]);
                }
            }
            assert forall|i: int, j: int| 0 <= i < j < after.len() implies #[trigger] after[i]
                != #[trigger] after[j] by {
                let bi = if i < place {
                    i
                } else {
                    i - 1
                };
                let bj = if j < place {
                    j
                } else {
                    j - 1
                };
                if i == place {
                    assert(after[j] == before[bj]);
                } else if j == place {
                    assert(after[i] == before[bi]);
                } else {
                    assert(after[i] == before[bi] && after[j] == before[bj]);
                }
            }
            if diagonal_numbers(a@) {
                assert(!a@.at(k as int, k as int).nan());
                assert forall|i: int, j: int| 0 <= i < j < after.len() implies {
                    let (l, r) = (#[trigger] after[i] as int, #[trigger] after[j] as int);
                    a@.at(l, l).below(a@.at(r, r)) || (a@.at(l, l).level(a@.at(r, r)) && l < r)
                } by {
                    let bi = if i < place {
                        i
                    } else {
                        i - 1
                    };
                    let bj = if j < place {
                        j
                    } else {
                        j - 1
                    };
                    if i == place {
                        assert(after[j] == before[bj]);
                    } else if j == place {
                        assert(after[i] == before[bi]);
                        let last = before[place - 1] as int;
                        assert(!a@.at(last, last).nan());
                        if i < place - 1 {
                            assert(before[i] < k && before[place - 1] < k);
                        }
                    } else {
                        assert(after[i] == before[bi] && after[j] == before[bj]);
                    }
                }
            }
        }
    }
    order
}

/// The largest magnitude above the diagonal and its place.
fn find_pivot(a: &Array2) -> (r: (Real, usize, usize))
    requires
        a@.rows == a@.cols,
    ensures
        r.0 == pivot_of(a@).size,
        r.1 == pivot_of(a@).row,
        r.2 == pivot_of(a@).col,
        !r.0.nan(),
        (Real { bits: ZERO }).below(r.0) ==> r.1 < r.2 < a@.rows,
{
    let n: usize = a.nrows();
    let mut size = Real { bits: ZERO };
    let mut row: usize = 0;
    let mut col: usize = 0;
    for i in 0..n
        invariant
            n == a@.rows,
            n == a@.cols,
            pivot_upto(a@, i - 1, n as int) == (Pivot { size, row: row as int, col: col as int }),
            !size.nan(),
            (Real { bits: ZERO }).below(size) ==> row < col < n,
    {
        for j in i + 1..n
            invariant
                i < n,
                n == a@.rows,
                n == a@.cols,
                pivot_upto(a@, i as int, j as int) == (Pivot {
                    size,
                    row: row as int,
                    col: col as int,
                }),
                !size.nan(),
                (Real { bits: ZERO }).below(size) ==> row < col < n,
        {
            let magnitude = a.cell(i, j).abs();
            if magnitude.gt(size) {
                size = magnitude;
                row = i;
                col = j;
            }
        }
    }
    (size, row, col)
}

/// The largest magnitude of an entry, but at least one.
fn find_magnitude(a: &Array2) -> (r: Real)
    ensures
        r == magnitude_upto(a@, a@.rows - 1, a@.cols as int),
{
    let (rows, cols) = a.dim();
    let mut r = Real { bits: ONE };
    for i in 0..rows
        invariant
            rows == a@.rows,
            cols == a@.cols,
            r == magnitude_upto(a@, i - 1, cols as int),
    {
        for j in 0..cols
            invariant
                i < rows,
                rows == a@.rows,
                cols == a@.cols,
                r == magnitude_upto(a@, i as int, j as int),
        {
            r = r.max(a.cell(i, j).abs());
        }
    }
    r
}

/// `c x - s y`.
fn turn_first<A: Arithmetic>(ar: &A, c: Real, s: Real, x: Real, y: Real) -> (r: Real)
    ensures
        functional(*ar) ==> r == turned_first(*ar, c, s, x, y),
{
    let cx = times(ar, c, x);
    let sy = times(ar, s, y);
    minus(ar, cx, sy)
}

/// `s x + c y`.
fn turn_second<A: Arithmetic>(ar: &A, c: Real, s: Real, x: Real, y: Real) -> (r: Real)
    ensures
        functional(*ar) ==> r == turned_second(*ar, c, s, x, y),
{
    let sx = times(ar, s, x);
    let cy = times(ar, c, y);
    plus(ar, sx, cy)
}

/// Whether a rotation in the plane of `p` and `q` has reached the cell `(i, j)` once it has
/// gone through the first `k` indices.
spec fn reached(i: int, j: int, p: int, q: int, k: int) -> bool {
    ||| (j == p || j == q) && i != p && i != q && i < k
    ||| (i == p || i == q) && j != p && j != q && j < k
}

/// Rotates the matrix in the plane of `p` and `q`.
fn turn<A: Arithmetic>(ar: &A, a: &mut Array2, c: Real, s: Real, p: usize, q: usize)
    requires
        old(a)@.rows == old(a)@.cols,
        p < q < old(a)@.rows,
        old(a)@.full(),
    ensures
        final(a)@.rows == old(a)@.rows,
        final(a)@.cols == old(a)@.cols,
        final(a)@.full(),
        functional(*ar) && c == cosine_of(
            *ar,
            rotation_angle(*ar, old(a)@, p as int, q as int),
        ) && s == sine_of(*ar, rotation_angle(*ar, old(a)@, p as int, q as int)) ==> final(a)@
            == turned(*ar, old(a)@, p as int, q as int),
{
    let n: usize = a.nrows();
    let ghost before = a@;
    let ghost (gp, gq) = (p as int, q as int);
    let ghost goal = turned(*ar, before, gp, gq);
    let ghost right = functional(*ar) && c == cosine_of(*ar, rotation_angle(*ar, before, gp, gq))
        && s == sine_of(*ar, rotation_angle(*ar, before, gp, gq));
    let app = a.cell(p, p);
    let aqq = a.cell(q, q);
    let apq = a.cell(p, q);
    for k in 0..n
        invariant
            p < q < n,
            n == before.rows,
            n == before.cols,
            gp == p,
            gq == q,
            a@.rows == n,
            a@.cols == n,
            a@.cells.dom() == before.cells.dom(),
            before.cells.dom() == goal.cells.dom(),
            goal == turned(*ar, before, gp, gq),
            right == (functional(*ar) && c == cosine_of(
                *ar,
                rotation_angle(*ar, before, gp, gq),
            ) && s == sine_of(*ar, rotation_angle(*ar, before, gp, gq))),
            forall|i: int, j: int|
                0 <= i < n && 0 <= j < n && !reached(i, j, gp, gq, k as int) ==> #[trigger] a@.cells[(
                i,
                j,
            )] == before.cells[(i, j)],
            right ==> forall|i: int, j: int|
                0 <= i < n && 0 <= j < n && reached(i, j, gp, gq, k as int) ==> #[trigger] a@.cells[(
                i,
                j,
            )] == goal.cells[(i, j)],
    {
        if k != p && k != q {
            let akp = a.cell(k, p);
            let akq = a.cell(k, q);
            proof {
                assert(!reached(k as int, gp, gp, gq, k as int));
                assert(!reached(k as int, gq, gp, gq, k as int));
            }
            let first = turn_first(ar, c, s, akp, akq);
            let second = turn_second(ar, c, s, akp, akq);
            a.put(k, p, first);
            a.put(p, k, first);
            a.put(k, q, second);
            a.put(q, k, second);
            assert(a@.cells.dom() =~= before.cells.dom());
        }
    }
    let cc = times(ar, c, c);
    let ss = times(ar, s, s);
    let two_s = times(ar, Real { bits: TWO }, s);
    let two_sc = times(ar, two_s, c);
    let cross = times(ar, two_sc, apq);
    let pp_first = times(ar, cc, app);
    let pp_second = times(ar, ss, aqq);
    let pp_part = minus(ar, pp_first, cross);
    let pp = plus(ar, pp_part, pp_second);
    let qq_first = times(ar, ss, app);
    let qq_second = times(ar, cc, aqq);
    let qq_part = plus(ar, qq_first, cross);
    let qq = plus(ar, qq_part, qq_second);
    a.put(p, p, pp);
    a.put(q, q, qq);
    a.put(p, q, Real { bits: ZERO });
    a.put(q, p, Real { bits: ZERO });
    proof {
        assert(a@.cells.dom() =~= before.cells.dom());
        if right {
            assert forall|x: (int, int)| #[trigger] a@.cells.dom().contains(x) implies a@.cells[x]
                == goal.cells[x] by {
                let (i, j) = x;
                assert(0 <= i < n && 0 <= j < n);
                assert(x == (i, j));
                if (i == gp || i == gq) && (j == gp || j == gq) {
                } else if i == gp || i == gq || j == gp || j == gq {
                    assert(reached(i, j, gp, gq, n as int));
                } else {
                    assert(!reached(i, j, gp, gq, n as int));
                }
            }
            assert(a@.cells =~= goal.cells);
        }
    }
}

/// Rotates the columns `p` and `q` of the vectors.
fn turn_vectors<A: Arithmetic>(ar: &A, v: &mut Array2, c: Real, s: Real, p: usize, q: usize)
    requires
        p < q < old(v)@.cols,
        old(v)@.full(),
    ensures
        final(v)@.rows == old(v)@.rows,
        final(v)@.cols == old(v)@.cols,
        final(v)@.full(),
        functional(*ar) ==> final(v)@ == turned_vectors(
            *ar,
            old(v)@,
            c,
            s,
            p as int,
            q as int,
        ),
{
    let n: usize = v.nrows();
    let ghost before = v@;
    let ghost (gp, gq) = (p as int, q as int);
    let ghost goal = turned_vectors(*ar, before, c, s, gp, gq);
    for k in 0..n
        invariant
            p < q < before.cols,
            n == before.rows,
            gp == p,
            gq == q,
            v@.rows == before.rows,
            v@.cols == before.cols,
            v@.cells.dom() == before.cells.dom(),
            before.cells.dom() == goal.cells.dom(),
            goal == turned_vectors(*ar, before, c, s, gp, gq),
            forall|i: int, j: int|
                0 <= i < n && 0 <= j < before.cols && (i >= k || (j != gp && j != gq))
                    ==> #[trigger] v@.cells[(i, j)] == before.cells[(i, j)],
            functional(*ar) ==> forall|i: int, j: int|
                0 <= i < k && (j == gp || j == gq) ==> #[trigger] v@.cells[(i, j)]
                    == goal.cells[(i, j)],
    {
        let vkp = v.cell(k, p);
        let vkq = v.cell(k, q);
        let first = turn_first(ar, c, s, vkp, vkq);
        let second = turn_second(ar, c, s, vkp, vkq);
        v.put(k, p, first);
        v.put(k, q, second);
        assert(v@.cells.dom() =~= before.cells.dom());
    }
    proof {
        if functional(*ar) {
            assert forall|x: (int, int)| #[trigger] v@.cells.dom().contains(x) implies v@.cells[x]
                == goal.cells[x] by {
                assert(x == (x.0, x.1));
                assert(0 <= x.0 < n && 0 <= x.1 < before.cols);
            }
            assert(v@.cells =~= goal.cells);
        }
    }
}

/// The number of rotations after which the search is given up.
pub open spec fn rotation_limit(n: nat) -> nat {
    50 * n * n
}

proof fn lemma_rotations_settle<A: Arithmetic>(ar: A, a: Grid, threshold: Real, k: nat, n: nat)
    requires
        k <= n,
        ({
            let size = pivot_of(rotations(ar, a, threshold, k).0).size;
            size.at_most(threshold) || !(Real { bits: ZERO }).below(size)
        }),
    ensures
        rotations(ar, a, threshold, n) == rotations(ar, a, threshold, k),
    decreases n,
{
    if k < n {
        lemma_rotations_settle(ar, a, threshold, k, (n - 1) as nat);
    }
}

/// Whether eigenvalues and eigenvectors are those read off the rotated matrix `b` and the
/// rotated vectors `v`: in ascending order, equal ones in order of place.
pub open spec fn reads_off(b: Grid, v: Grid, values: Seq<Real>, vectors: Grid) -> bool {
    exists|order: Seq<usize>|
        {
            &&& #[trigger] permutes(order, b.rows)
            &&& diagonal_numbers(b) ==> ascends(order, b)
            &&& values == Seq::new(b.rows, |i: int| b.at(order[i] as int, order[i] as int))
            &&& vectors == Grid::generated(
                b.rows,
                b.rows,
                |i: int, j: int| v.at(i, order[j] as int),
            )
        }
}

/// Whether `r` is what the search for eigenvalues comes to.
pub open spec fn eigen_outcome<A: Arithmetic>(
    ar: A,
    a: Grid,
    tolerance: Real,
    r: Result<(Vec<Real>, Array2), TheseusError>,
) -> bool {
    if a.rows != a.cols {
        r == Err::<(Vec<Real>, Array2), _>(TheseusError::Shape(Complaint::EigenShape))
    } else {
        match r {
            Ok(found) => {
                &&& found.0@.len() == a.rows
                &&& found.1@.rows == a.rows
                &&& found.1@.cols == a.rows
                &&& functional(ar) && a.rows > 0 ==> {
                    let threshold = off_diagonal_threshold(ar, a, tolerance);
                    let (b, v) = rotations(
                        ar,
                        a,
                        threshold,
                        (rotation_limit(a.rows) - 1) as nat,
                    );
                    &&& pivot_of(b).size.at_most(threshold)
                    &&& reads_off(b, v, found.0@, found.1@)
                }
            },
            Err(e) => {
                &&& a.rows > 0
                &&& e == TheseusError::Solver(Complaint::EigenNotConverged)
                &&& functional(ar) ==> {
                    let threshold = off_diagonal_threshold(ar, a, tolerance);
                    let (b, v) = rotations(
                        ar,
                        a,
                        threshold,
                        (rotation_limit(a.rows) - 1) as nat,
                    );
                    !pivot_of(b).size.at_most(threshold)
                }
            },
        }
    }
}

/// The unit vectors.
fn identity(n: usize) -> (r: Array2)
    requires
        fits(n as nat, n as nat),
    ensures
        r@ == Grid::generated(
            n as nat,
            n as nat,
            |i: int, j: int|
                Real {
                    bits: if i == j {
                        ONE
                    } else {
                        ZERO
                    },
                },
        ),
{
    let mut r = Array2::from_elem(n, n, Real { bits: ZERO });
    let ghost goal = Grid::generated(
        n as nat,
        n as nat,
        |i: int, j: int|
            Real {
                bits: if i == j {
                    ONE
                } else {
                    ZERO
                },
            },
    );
    for k in 0..n
        invariant
            r@.rows == n,
            r@.cols == n,
            r@.cells.dom() == goal.cells.dom(),
            forall|i: int, j: int|
                0 <= i < n && 0 <= j < n ==> #[trigger] r@.cells[(i, j)] == (Real {
                    bits: if i == j && i < k {
                        ONE
                    } else {
                        ZERO
                    },
                }),
            goal == Grid::generated(
                n as nat,
                n as nat,
                |i: int, j: int|
                    Real {
                        bits: if i == j {
                            ONE
                        } else {
                            ZERO
                        },
                    },
            ),
    {
        r.put(k, k, Real { bits: ONE });
        assert(r@.cells.dom() =~= goal.cells.dom());
    }
    proof {
        assert forall|x: (int, int)| #[trigger] r@.cells.dom().contains(x) implies r@.cells[x]
            == goal.cells[x] by {
            assert(x == (x.0, x.1));
        }
        assert(r@.cells =~= goal.cells);
    }
    r
}

/// The columns of `v` in the given order.
fn reorder(v: &Array2, order: &Vec<usize>) -> (r: Array2)
    requires
        v@.rows == order@.len(),
        v@.cols == order@.len(),
        permutes(order@, order@.len()),
        fits(order@.len(), order@.len()),
    ensures
        r@ == Grid::generated(
            v@.rows,
            v@.rows,
            |i: int, j: int| v@.at(i, order@[j] as int),
        ),
{
    let n: usize = order.len();
    let ghost goal = Grid::generated(
        v@.rows,
        v@.rows,
        |i: int, j: int| v@.at(i, order@[j] as int),
    );
    let mut r = Array2::from_elem(n, n, Real { bits: ZERO });
    for j in 0..n
        invariant
            n == order@.len(),
            v@.rows == n,
            v@.cols == n,
            permutes(order@, n as nat),
            r@.rows == n,
            r@.cols == n,
            r@.cells.dom() == goal.cells.dom(),
            forall|x: int, y: int|
                0 <= x < n && 0 <= y < j ==> #[trigger] r@.cells[(x, y)] == v@.at(
                    x,
                    order@[y] as int,
                ),
            goal == Grid::generated(
                v@.rows,
                v@.rows,
                |i: int, j: int| v@.at(i, order@[j] as int),
            ),
    {
        for i in 0..n
            invariant
                j < n,
                n == order@.len(),
                v@.rows == n,
                v@.cols == n,
                permutes(order@, n as nat),
                r@.rows == n,
                r@.cols == n,
                r@.cells.dom() == goal.cells.dom(),
                forall|x: int, y: int|
                    0 <= x < n && 0 <= y < j ==> #[trigger] r@.cells[(x, y)] == v@.at(
                        x,
                        order@[y] as int,
                    ),
                forall|x: int|
                    0 <= x < i ==> #[trigger] r@.cells[(x, j as int)] == v@.at(
                        x,
                        order@[j as int] as int,
                    ),
                goal == Grid::generated(
                    v@.rows,
                    v@.rows,
                    |i: int, j: int| v@.at(i, order@[j] as int),
                ),
        {
            r.put(i, j, v.cell(i, order[j]));
            assert(r@.cells.dom() =~= goal.cells.dom());
        }
    }
    proof {
        assert forall|x: (int, int)| #[trigger] r@.cells.dom().contains(x) implies r@.cells[x]
            == goal.cells[x] by {
            assert(x == (x.0, x.1));
        }
        assert(r@.cells =~= goal.cells);
    }
    r
}

/// Eigenvalues, ascending, and eigenvectors, by columns, of a symmetric matrix.
pub fn symmetric_eigen_jacobi<A: Arithmetic>(ar: &A, matrix: &Array2, tolerance: Real) -> (r: Result<
    (Vec<Real>, Array2),
    TheseusError,
>)
    requires
        fits(matrix@.rows, matrix@.rows),
    ensures
        eigen_outcome(*ar, matrix@, tolerance, r),
{
    let (rows, cols) = matrix.dim();
    if rows != cols {
        return Err(TheseusError::Shape(Complaint::EigenShape));
    }
    if rows == 0 {
        return Ok((Vec::new(), Array2::from_elem(0, 0, Real { bits: ZERO })));
    }
    let mut a = matrix.clone();
    let mut vectors = identity(rows);
    let scale = find_magnitude(matrix);
    let threshold = times(ar, tolerance.max(Real { bits: EPSILON }), scale);
    let ghost m = matrix@;
    assert(50 <= 50 * (rows as int) * (rows as int) <= 50 * isize::MAX) by (nonlinear_arith)
        requires
            1 <= rows,
            (rows as int) * (rows as int) * 8 <= isize::MAX,
    ;
    let columns: u128 = 50 * (rows as u128);
    let limit: u128 = columns * (rows as u128);
    let mut sweep: u128 = 0;
    while sweep < limit
        invariant
            m == matrix@,
            m.rows == rows,
            m.cols == rows,
            rows > 0,
            fits(rows as nat, rows as nat),
            a@.rows == rows,
            a@.cols == rows,
            a@.full(),
            vectors@.rows == rows,
            vectors@.cols == rows,
            vectors@.full(),
            limit == rotation_limit(rows as nat),
            sweep <= limit,
            functional(*ar) ==> threshold == off_diagonal_threshold(*ar, m, tolerance),
            functional(*ar) ==> (a@, vectors@) == rotations(*ar, m, threshold, sweep as nat),
            functional(*ar) && sweep > 0 ==> {
                let size = pivot_of(rotations(*ar, m, threshold, (sweep - 1) as nat).0).size;
                !size.at_most(threshold)
            },
        decreases limit - sweep,
    {
        let (largest, p, q) = find_pivot(&a);
        if largest.le(threshold) {
            proof {
                if functional(*ar) {
                    lemma_rotations_settle(
                        *ar,
                        m,
                        threshold,
                        sweep as nat,
                        (limit - 1) as nat,
                    );
                }
            }
            let order = ascending_order(&a);
            let mut values: Vec<Real> = Vec::new();
            for i in 0..rows
                invariant
                    a@.rows == rows,
                    a@.cols == rows,
                    permutes(order@, rows as nat),
                    values@.len() == i,
                    forall|k: int|
                        0 <= k < i ==> #[trigger] values@[k] == a@.at(
                            order@[k] as int,
                            order@[k] as int,
                        ),
            {
                values.push(a.cell(order[i], order[i]));
            }
            let sorted = reorder(&vectors, &order);
            proof {
                assert(values@ =~= Seq::new(
                    rows as nat,
                    |i: int| a@.at(order@[i] as int, order@[i] as int),
                ));
                assert(reads_off(a@, vectors@, values@, sorted@));
            }
            return Ok((values, sorted));
        }
        if !largest.gt(Real { bits: ZERO }) {
            proof {
                if functional(*ar) {
                    lemma_rotations_settle(
                        *ar,
                        m,
                        threshold,
                        sweep as nat,
                        (limit - 1) as nat,
                    );
                }
            }
            return Err(TheseusError::Solver(Complaint::EigenNotConverged));
        }
        let twice = times(ar, Real { bits: TWO }, a.cell(p, q));
        let spread = minus(ar, a.cell(q, q), a.cell(p, p));
        let whole = atan2(ar, twice, spread);
        let angle = times(ar, Real { bits: HALF }, whole);
        let c = cos(ar, angle);
        let s = sin(ar, angle);
        turn(ar, &mut a, c, s, p, q);
        turn_vectors(ar, &mut vectors, c, s, p, q);
        sweep = sweep + 1;
    }
    Err(TheseusError::Solver(Complaint::EigenNotConverged))
}

} // verus!
