//! Sparse matrices in compressed column storage.

use crate::arithmetic::{functional, plus, product_of, sum_of, times, Arithmetic};
use crate::double::{Real, ZERO};
use crate::error::{Complaint, TheseusError};
use vstd::prelude::*;

verus! {

/// A sparse matrix, stored column by column.
#[derive(Debug)]
pub struct SparseColMatOwned {
    pub nrows: usize,
    pub ncols: usize,
    pub col_ptrs: Vec<u32>,
    pub row_indices: Vec<u32>,
    pub values: Vec<Real>,
}

/// What a sparse matrix is: column `j` holds the stored entries from `starts[j]` up to
/// `starts[j + 1]`, each with its row and its value.
pub ghost struct Csc {
    pub nrows: nat,
    pub ncols: nat,
    pub starts: Seq<u32>,
    pub rows: Seq<u32>,
    pub values: Seq<Real>,
}

/// An entry as row, column and value.
pub type Triplet = (u32, u32, Real);

impl Csc {
    /// The number of stored entries.
    pub open spec fn nnz(self) -> nat {
        self.values.len()
    }

    pub open spec fn wf(self) -> bool {
        &&& self.starts.len() == self.ncols + 1
        &&& self.starts[0] == 0
        &&& self.starts[self.ncols as int] == self.values.len()
        &&& self.rows.len() == self.values.len()
        &&& forall|i: int, j: int|
            0 <= i <= j <= self.ncols ==> #[trigger] self.starts[i] <= #[trigger] self.starts[j]
        &&& forall|k: int| 0 <= k < self.rows.len() ==> #[trigger] self.rows[k] < self.nrows
    }

    /// Whether stored entry `k` belongs to column `j`.
    pub open spec fn in_column(self, k: int, j: int) -> bool {
        0 <= j < self.ncols && self.starts[j] <= k < self.starts[j + 1]
    }

    /// The column of stored entry `k`.
    pub open spec fn column_of(self, k: int) -> int {
        choose|j: int| self.in_column(k, j)
    }

    /// The stored entries as triplets, in storage order.
    pub open spec fn triplets(self) -> Seq<Triplet> {
        Seq::new(self.nnz(), |k: int| (self.rows[k], self.column_of(k) as u32, self.values[k]))
    }

    /// The product with `x` as far as the first `k` stored entries contribute to it,
    /// each in turn.
    pub open spec fn applied_upto<A: Arithmetic>(self, ar: A, x: Seq<Real>, k: int) -> Seq<
        Real,
    >
        decreases k,
    {
        if k <= 0 {
            Seq::new(self.nrows, |i: int| Real { bits: ZERO })
        } else {
            let before = self.applied_upto(ar, x, k - 1);
            let row = self.rows[k - 1] as int;
            before.update(
                row,
                sum_of(
                    ar,
                    before[row],
                    product_of(ar, self.values[k - 1], x[self.column_of(k - 1)]),
                ),
            )
        }
    }

    /// The matrix times the vector `x`.
    pub open spec fn applied<A: Arithmetic>(self, ar: A, x: Seq<Real>) -> Seq<Real> {
        self.applied_upto(ar, x, self.nnz() as int)
    }

    /// The entries of row `r` among the first `k` stored ones, as column and value.
    pub open spec fn row_list(self, r: int, k: int) -> Seq<(u32, Real)>
        decreases k,
    {
        if k <= 0 {
            Seq::empty()
        } else if self.rows[k - 1] == r {
            self.row_list(r, k - 1).push((self.column_of(k - 1) as u32, self.values[k - 1]))
        } else {
            self.row_list(r, k - 1)
        }
    }

    /// The matrix with rows and columns exchanged: its column `r` lists row `r`.
    pub open spec fn transposed(self) -> Csc {
        packed(
            self.ncols,
            Seq::new(self.nrows, |r: int| self.row_list(r, self.nnz() as int)),
        )
    }

    /// The matrix with each entry of row `i` multiplied by `scales[i]`.
    pub open spec fn row_scaled<A: Arithmetic>(self, ar: A, scales: Seq<Real>) -> Csc {
        Csc {
            values: Seq::new(
                self.nnz(),
                |k: int| product_of(ar, self.values[k], scales[self.rows[k] as int]),
            ),
            ..self
        }
    }
}

/// The entries of the first `j` lists, one list after the other.
pub open spec fn joined(lists: Seq<Seq<(u32, Real)>>, j: int) -> Seq<(u32, Real)>
    decreases j,
{
    if j <= 0 {
        Seq::empty()
    } else {
        joined(lists, j - 1) + lists[j - 1]
    }
}

/// The matrix whose column `j` stores the entries of `lists[j]`, in their order.
pub open spec fn packed(nrows: nat, lists: Seq<Seq<(u32, Real)>>) -> Csc {
    let all = joined(lists, lists.len() as int);
    Csc {
        nrows,
        ncols: lists.len(),
        starts: Seq::new(lists.len() + 1, |j: int| joined(lists, j).len() as u32),
        rows: Seq::new(all.len(), |k: int| all[k].0),
        values: Seq::new(all.len(), |k: int| all[k].1),
    }
}

proof fn lemma_joined_grows(lists: Seq<Seq<(u32, Real)>>, i: int, j: int)
    requires
        0 <= i <= j <= lists.len(),
    ensures
        joined(lists, i).len() <= joined(lists, j).len(),
        forall|k: int|
            0 <= k < joined(lists, i).len() ==> joined(lists, j)[k] == #[trigger] joined(lists, i)[k],
    decreases j,
{
    if i < j {
        lemma_joined_grows(lists, i, j - 1);
    }
}

/// A column of a matrix is unique to its entries.
pub(crate) proof fn lemma_column(m: Csc, k: int, j: int)
    requires
        m.wf(),
        m.in_column(k, j),
    ensures
        m.column_of(k) == j,
{
    let c = m.column_of(k);
    assert(m.in_column(k, c));
    if c < j {
        assert(m.starts[c + 1] <= m.starts[j]);
    } else if j < c {
        assert(m.starts[j + 1] <= m.starts[c]);
    }
}

/// Every stored entry has a column.
pub(crate) proof fn lemma_has_column(m: Csc, k: int)
    requires
        m.wf(),
        0 <= k < m.nnz(),
    ensures
        m.in_column(k, m.column_of(k)),
{
    lemma_search_column(m, k, m.ncols as int);
}

proof fn lemma_search_column(m: Csc, k: int, j: int)
    requires
        m.wf(),
        0 <= j <= m.ncols,
        0 <= k < m.starts[j],
    ensures
        exists|c: int| m.in_column(k, c),
    decreases j,
{
    if m.starts[j - 1] <= k {
        assert(m.in_column(k, j - 1));
    } else {
        lemma_search_column(m, k, j - 1);
    }
}

impl View for SparseColMatOwned {
    type V = Csc;

    open spec fn view(&self) -> Csc {
        Csc {
            nrows: self.nrows as nat,
            ncols: self.ncols as nat,
            starts: self.col_ptrs@,
            rows: self.row_indices@,
            values: self.values@,
        }
    }
}

impl Clone for SparseColMatOwned {
    fn clone(&self) -> (r: SparseColMatOwned)
        ensures
            r@ == self@,
    {
        SparseColMatOwned {
            nrows: self.nrows,
            ncols: self.ncols,
            col_ptrs: self.col_ptrs.clone(),
            row_indices: self.row_indices.clone(),
            values: self.values.clone(),
        }
    }
}

/// The entries of each list.
spec fn contents(lists: Seq<Vec<(u32, Real)>>) -> Seq<Seq<(u32, Real)>> {
    Seq::new(lists.len(), |j: int| lists[j]@)
}

/// A packed matrix is well formed where its lists name existing rows and its entries
/// can be counted in 32 bits.
proof fn lemma_packed_wf(nrows: nat, lists: Seq<Seq<(u32, Real)>>)
    requires
        joined(lists, lists.len() as int).len() <= u32::MAX,
        forall|j: int, k: int|
            0 <= j < lists.len() && 0 <= k < lists[j].len() ==> (#[trigger] lists[j][k]).0 < nrows,
    ensures
        packed(nrows, lists).wf(),
{
    let m = packed(nrows, lists);
    let n = lists.len() as int;
    assert forall|i: int, j: int| 0 <= i <= j <= n implies #[trigger] m.starts[i]
        <= #[trigger] m.starts[j] by {
        lemma_joined_grows(lists, i, j);
        lemma_joined_grows(lists, j, n);
    }
    lemma_joined_bounded(nrows, lists, n);
}

proof fn lemma_joined_bounded(nrows: nat, lists: Seq<Seq<(u32, Real)>>, n: int)
    requires
        0 <= n <= lists.len(),
        forall|j: int, k: int|
            0 <= j < lists.len() && 0 <= k < lists[j].len() ==> (#[trigger] lists[j][k]).0 < nrows,
    ensures
        forall|k: int|
            0 <= k < joined(lists, n).len() ==> (#[trigger] joined(lists, n)[k]).0 < nrows,
    decreases n,
{
    if n > 0 {
        lemma_joined_bounded(nrows, lists, n - 1);
        let before = joined(lists, n - 1);
        assert forall|k: int| 0 <= k < joined(lists, n).len() implies (#[trigger] joined(
            lists,
            n,
        )[k]).0 < nrows by {
            if k < before.len() {
                assert(joined(lists, n)[k] == before[k]);
            } else {
                assert(joined(lists, n)[k] == lists[n - 1][k - before.len()]);
            }
        }
    }
}

/// Appending one entry to one list makes all lists together one entry longer.
proof fn lemma_joined_push(lists: Seq<Seq<(u32, Real)>>, r: int, e: (u32, Real), n: int)
    requires
        0 <= r < lists.len(),
        0 <= n <= lists.len(),
    ensures
        joined(lists.update(r, lists[r].push(e)), n).len() == joined(lists, n).len() + if r < n {
            1int
        } else {
            0int
        },
    decreases n,
{
    if n > 0 {
        lemma_joined_push(lists, r, e, n - 1);
    }
}

/// The matrix whose column `j` stores the entries of `lists[j]`.
fn pack(nrows: usize, lists: &Vec<Vec<(u32, Real)>>) -> (r: SparseColMatOwned)
    requires
        joined(contents(lists@), lists@.len() as int).len() <= u32::MAX,
        lists@.len() < usize::MAX,
    ensures
        r@ == packed(nrows as nat, contents(lists@)),
{
    let ghost all = contents(lists@);
    let mut col_ptrs: Vec<u32> = Vec::new();
    let mut row_indices: Vec<u32> = Vec::new();
    let mut values: Vec<Real> = Vec::new();
    col_ptrs.push(0);
    for j in 0..lists.len()
        invariant
            all == contents(lists@),
            joined(all, all.len() as int).len() <= u32::MAX,
            col_ptrs@ =~= Seq::new((j + 1) as nat, |i: int| joined(all, i).len() as u32),
            row_indices@.len() == values@.len() == joined(all, j as int).len(),
            forall|k: int|
                0 <= k < values@.len() ==> joined(all, j as int)[k] == (
                    #[trigger] row_indices@[k],
                    values@[k],
                ),
    {
        let list = &lists[j];
        proof {
            lemma_joined_grows(all, j + 1, all.len() as int);
        }
        for k in 0..list.len()
            invariant
                0 <= j < all.len(),
                list@ == all[j as int],
                row_indices@.len() == values@.len() == joined(all, j as int).len() + k,
                forall|i: int|
                    0 <= i < values@.len() ==> joined(all, j + 1)[i] == (
                        #[trigger] row_indices@[i],
                        values@[i],
                    ),
        {
            let (row, value) = list[k];
            row_indices.push(row);
            values.push(value);
        }
        col_ptrs.push(values.len() as u32);
    }
    let r = SparseColMatOwned { nrows, ncols: lists.len(), col_ptrs, row_indices, values };
    proof {
        assert(r@.starts =~= packed(nrows as nat, all).starts);
        assert(r@.rows =~= packed(nrows as nat, all).rows);
        assert forall|k: int| 0 <= k < r@.values.len() implies r@.values[k] == packed(
            nrows as nat,
            all,
        ).values[k] by {
            assert(r@.rows[k] == joined(all, all.len() as int)[k].0);
        }
        assert(r@.values =~= packed(nrows as nat, all).values);
    }
    r
}

/// `n` empty lists.
fn empty_lists(n: usize) -> (r: Vec<Vec<(u32, Real)>>)
    ensures
        contents(r@) =~= Seq::new(n as nat, |j: int| Seq::<(u32, Real)>::empty()),
        r@.len() == n,
{
    let mut r: Vec<Vec<(u32, Real)>> = Vec::new();
    for j in 0..n
        invariant
            r@.len() == j,
            forall|i: int| 0 <= i < j ==> (#[trigger] r@[i])@ == Seq::<(u32, Real)>::empty(),
    {
        r.push(Vec::new());
    }
    r
}

proof fn lemma_joined_empty(n: nat, j: int)
    requires
        0 <= j <= n,
    ensures
        joined(Seq::new(n, |i: int| Seq::<(u32, Real)>::empty()), j).len() == 0,
    decreases j,
{
    if j > 0 {
        lemma_joined_empty(n, j - 1);
    }
}

impl SparseColMatOwned {
    pub open spec fn wf(self) -> bool {
        self@.wf()
    }

    /// The number of stored entries.
    pub fn nnz(&self) -> (r: usize)
        ensures
            r == self@.nnz(),
    {
        self.values.len()
    }

    /// The matrix times the vector `x`.
    pub fn matvec<A: Arithmetic>(&self, ar: &A, x: &Vec<Real>) -> (r: Vec<Real>)
        requires
            self.wf(),
            x@.len() == self.ncols,
        ensures
            r@.len() == self.nrows,
            functional(*ar) ==> r@ == self@.applied(*ar, x@),
    {
        let mut y: Vec<Real> = Vec::new();
        y.resize(self.nrows, Real { bits: ZERO });
        proof {
            assert(y@ =~= self@.applied_upto(*ar, x@, 0));
        }
        for col in 0..self.ncols
            invariant
                self.wf(),
                x@.len() == self.ncols,
                y@.len() == self.nrows,
                functional(*ar) ==> y@ == self@.applied_upto(*ar, x@, self@.starts[col as int] as int),
        {
            let start: usize = self.col_ptrs[col] as usize;
            let end: usize = self.col_ptrs[col + 1] as usize;
            assert(self@.starts[col as int] <= self@.starts[col + 1]);
            assert(self@.starts[col + 1] <= self@.starts[self.ncols as int]);
            for nz in start..end
                invariant
                    self.wf(),
                    x@.len() == self.ncols,
                    y@.len() == self.nrows,
                    col < self.ncols,
                    start == self@.starts[col as int],
                    end == self@.starts[col + 1],
                    end <= self@.nnz(),
                    functional(*ar) ==> y@ == self@.applied_upto(*ar, x@, nz as int),
            {
                let row: usize = self.row_indices[nz] as usize;
                proof {
                    assert(self@.rows[nz as int] < self@.nrows);
                    lemma_column(self@, nz as int, col as int);
                }
                let contribution = times(ar, self.values[nz], x[col]);
                y[row] = plus(ar, y[row], contribution);
            }
        }
        y
    }

    /// The matrix with rows and columns exchanged.
    pub fn transpose(&self) -> (r: SparseColMatOwned)
        requires
            self.wf(),
            self.nrows < usize::MAX,
        ensures
            r.wf(),
            r@ == self@.transposed(),
            r.nrows == self.ncols,
            r.ncols == self.nrows,
            r@.nnz() == self@.nnz(),
    {
        let ghost m = self@;
        let mut lists = empty_lists(self.nrows);
        proof {
            lemma_joined_empty(m.nrows, m.nrows as int);
            assert(contents(lists@) =~= Seq::new(m.nrows, |r: int| m.row_list(r, 0)));
        }
        for col in 0..self.ncols
            invariant
                self.wf(),
                m == self@,
                lists@.len() == m.nrows,
                contents(lists@) == Seq::new(
                    m.nrows,
                    |r: int| m.row_list(r, m.starts[col as int] as int),
                ),
                joined(contents(lists@), m.nrows as int).len() == m.starts[col as int],
        {
            let start: usize = self.col_ptrs[col] as usize;
            let end: usize = self.col_ptrs[col + 1] as usize;
            assert(m.starts[col as int] <= m.starts[col + 1]);
            assert(m.starts[col + 1] <= m.starts[m.ncols as int]);
            for nz in start..end
                invariant
                    self.wf(),
                    m == self@,
                    lists@.len() == m.nrows,
                    col < self.ncols,
                    start == m.starts[col as int],
                    end == m.starts[col + 1],
                    end <= m.nnz(),
                    contents(lists@) == Seq::new(m.nrows, |r: int| m.row_list(r, nz as int)),
                    joined(contents(lists@), m.nrows as int).len() == nz,
            {
                let row: usize = self.row_indices[nz] as usize;
                let ghost before = contents(lists@);
                proof {
                    assert(m.rows[nz as int] < m.nrows);
                    lemma_column(m, nz as int, col as int);
                    lemma_joined_push(
                        before,
                        row as int,
                        (col as u32, self.values@[nz as int]),
                        m.nrows as int,
                    );
                    assert(before[row as int] == lists@[row as int]@);
                }
                lists[row].push((col as u32, self.values[nz]));
                proof {
                    assert(contents(lists@) =~= before.update(
                        row as int,
                        before[row as int].push((col as u32, self.values@[nz as int])),
                    ));
                    assert(contents(lists@) =~= Seq::new(
                        m.nrows,
                        |r: int| m.row_list(r, nz as int + 1),
                    ));
                }
            }
        }
        proof {
            lemma_row_lists_bounded(m, m.nnz() as int);
            lemma_packed_wf(m.ncols, contents(lists@));
        }
        pack(self.ncols, &lists)
    }
}

pub(crate) proof fn lemma_row_lists_bounded(m: Csc, k: int)
    requires
        m.wf(),
        0 <= k <= m.nnz(),
    ensures
        forall|r: int, i: int|
            0 <= i < m.row_list(r, k).len() ==> (#[trigger] m.row_list(r, k)[i]).0 < m.ncols,
    decreases k,
{
    if k > 0 {
        lemma_row_lists_bounded(m, k - 1);
        lemma_has_column(m, k - 1);
        assert forall|r: int, i: int| 0 <= i < m.row_list(r, k).len() implies (
        #[trigger] m.row_list(r, k)[i]).0 < m.ncols by {
            if i < m.row_list(r, k - 1).len() {
                assert(m.row_list(r, k)[i] == m.row_list(r, k - 1)[i]);
            }
        }
    }
}

/// Whether every triplet lies in a matrix of this size.
pub open spec fn placed(t: Seq<Triplet>, nrows: nat, ncols: nat) -> bool {
    forall|k: int| 0 <= k < t.len() ==> (#[trigger] t[k]).0 < nrows && t[k].1 < ncols
}

/// Whether a matrix of this size can be assembled from the triplets: they lie in it, and
/// all of it can be indexed in 32 bits.
pub open spec fn assemblable(nrows: nat, ncols: nat, t: Seq<Triplet>) -> bool {
    &&& placed(t, nrows, ncols)
    &&& nrows < u32::MAX
    &&& ncols < u32::MAX
    &&& t.len() <= u32::MAX
}

/// The sum of the values that the first `k` triplets give to row `r` and column `c`, in
/// their order, or nothing where none of them does.
pub open spec fn total<A: Arithmetic>(ar: A, t: Seq<Triplet>, r: int, c: int, k: int) -> Option<Real>
    decreases k,
{
    if k <= 0 {
        None
    } else {
        let before = total(ar, t, r, c, k - 1);
        if t[k - 1].0 == r && t[k - 1].1 == c {
            match before {
                None => Some(t[k - 1].2),
                Some(s) => Some(sum_of(ar, s, t[k - 1].2)),
            }
        } else {
            before
        }
    }
}

/// `list` with the value `v` of row `r` at its end, if there is one.
pub open spec fn followed(list: Seq<(u32, Real)>, r: int, v: Option<Real>) -> Seq<(u32, Real)> {
    match v {
        None => list,
        Some(x) => list.push((r as u32, x)),
    }
}

/// The entries of column `c` in the rows below `r`, in ascending order of rows.
pub open spec fn column_upto<A: Arithmetic>(ar: A, t: Seq<Triplet>, c: int, r: int) -> Seq<
    (u32, Real),
>
    decreases r,
{
    if r <= 0 {
        Seq::empty()
    } else {
        followed(column_upto(ar, t, c, r - 1), r - 1, total(ar, t, r - 1, c, t.len() as int))
    }
}

/// The matrix with an entry wherever a triplet puts one; triplets for one place add up in
/// their order.
pub open spec fn assembled<A: Arithmetic>(
    ar: A,
    nrows: nat,
    ncols: nat,
    t: Seq<Triplet>,
) -> Csc {
    packed(nrows, Seq::new(ncols, |c: int| column_upto(ar, t, c, nrows as int)))
}

/// The columns and values that the first `k` triplets give to row `r`.
spec fn row_terms(t: Seq<Triplet>, r: int, k: int) -> Seq<(u32, Real)>
    decreases k,
{
    if k <= 0 {
        Seq::empty()
    } else if t[k - 1].0 == r {
        row_terms(t, r, k - 1).push((t[k - 1].1, t[k - 1].2))
    } else {
        row_terms(t, r, k - 1)
    }
}

/// The sum of the values that the first `i` terms give to column `c`.
spec fn term_total<A: Arithmetic>(ar: A, terms: Seq<(u32, Real)>, c: int, i: int) -> Option<Real>
    decreases i,
{
    if i <= 0 {
        None
    } else {
        let before = term_total(ar, terms, c, i - 1);
        if terms[i - 1].0 == c {
            match before {
                None => Some(terms[i - 1].1),
                Some(s) => Some(sum_of(ar, s, terms[i - 1].1)),
            }
        } else {
            before
        }
    }
}

proof fn lemma_term_total_prefix<A: Arithmetic>(
    ar: A,
    terms: Seq<(u32, Real)>,
    more: Seq<(u32, Real)>,
    c: int,
    i: int,
)
    requires
        0 <= i <= terms.len() <= more.len(),
        forall|k: int| 0 <= k < terms.len() ==> terms[k] == #[trigger] more[k],
    ensures
        term_total(ar, terms, c, i) == term_total(ar, more, c, i),
    decreases i,
{
    if i > 0 {
        lemma_term_total_prefix(ar, terms, more, c, i - 1);
        assert(terms[i - 1] == more[i - 1]);
    }
}

proof fn lemma_term_total<A: Arithmetic>(ar: A, t: Seq<Triplet>, r: int, c: int, k: int)
    requires
        0 <= k <= t.len(),
    ensures
        term_total(ar, row_terms(t, r, k), c, row_terms(t, r, k).len() as int) == total(
            ar,
            t,
            r,
            c,
            k,
        ),
    decreases k,
{
    if k > 0 {
        lemma_term_total(ar, t, r, c, k - 1);
        if t[k - 1].0 == r {
            let terms = row_terms(t, r, k - 1);
            lemma_term_total_prefix(ar, terms, row_terms(t, r, k), c, terms.len() as int);
        }
    }
}

pub(crate) proof fn lemma_column_rows<A: Arithmetic>(ar: A, t: Seq<Triplet>, c: int, r: int)
    requires
        r <= u32::MAX + 1,
    ensures
        forall|i: int|
            0 <= i < column_upto(ar, t, c, r).len() ==> (#[trigger] column_upto(ar, t, c, r)[i]).0
                < r,
    decreases r,
{
    if r > 0 {
        lemma_column_rows(ar, t, c, r - 1);
        let before = column_upto(ar, t, c, r - 1);
        assert forall|i: int| 0 <= i < column_upto(ar, t, c, r).len() implies (
        #[trigger] column_upto(ar, t, c, r)[i]).0 < r by {
            if i < before.len() {
                assert(column_upto(ar, t, c, r)[i] == before[i]);
            }
        }
    }
}

impl SparseColMatOwned {
    /// Assembles a matrix from triplets; those for one place are added up.
    pub fn from_triplets<A: Arithmetic>(
        ar: &A,
        nrows: usize,
        ncols: usize,
        triplets: &Vec<Triplet>,
    ) -> (r: Result<SparseColMatOwned, TheseusError>)
        ensures
            r is Ok <==> assemblable(nrows as nat, ncols as nat, triplets@),
            r is Err ==> r == Err::<SparseColMatOwned, _>(TheseusError::Shape(Complaint::Triplets)),
            r matches Ok(m) ==> m.wf() && m.nrows == nrows && m.ncols == ncols,
            r matches Ok(m) ==> functional(*ar) ==> m@ == assembled(
                *ar,
                nrows as nat,
                ncols as nat,
                triplets@,
            ),
    {
        if nrows >= u32::MAX as usize || ncols >= u32::MAX as usize || triplets.len()
            > u32::MAX as usize {
            return Err(TheseusError::Shape(Complaint::Triplets));
        }
        let ghost t = triplets@;
        let mut by_row = empty_lists(nrows);
        proof {
            lemma_joined_empty(nrows as nat, nrows as int);
            assert(contents(by_row@) =~= Seq::new(nrows as nat, |r: int| row_terms(t, r, 0)));
        }
        for k in 0..triplets.len()
            invariant
                t == triplets@,
                t.len() <= u32::MAX,
                nrows < u32::MAX,
                ncols < u32::MAX,
                by_row@.len() == nrows,
                contents(by_row@) == Seq::new(nrows as nat, |r: int| row_terms(t, r, k as int)),
                joined(contents(by_row@), nrows as int).len() == k,
                forall|i: int| 0 <= i < k ==> (#[trigger] t[i]).0 < nrows && t[i].1 < ncols,
                forall|r: int, i: int|
                    0 <= r < nrows && 0 <= i < contents(by_row@)[r].len() ==> (
                    #[trigger] contents(by_row@)[r][i]).0 < ncols,
        {
            let (row, col, value) = triplets[k];
            if row as usize >= nrows || col as usize >= ncols {
                proof {
                    assert(!(t[k as int].0 < nrows && t[k as int].1 < ncols));
                }
                return Err(TheseusError::Shape(Complaint::Triplets));
            }
            let ghost before = contents(by_row@);
            proof {
                lemma_joined_push(before, row as int, (col, value), nrows as int);
                assert(before[row as int] == by_row@[row as int]@);
            }
            by_row[row as usize].push((col, value));
            proof {
                let after = contents(by_row@);
                assert(after =~= before.update(row as int, before[row as int].push((col, value))));
                assert(after =~= Seq::new(nrows as nat, |r: int| row_terms(t, r, k as int + 1)));
                assert forall|r: int, i: int| 0 <= r < nrows && 0 <= i < after[r].len() implies (
                #[trigger] after[r][i]).0 < ncols by {
                    if i < before[r].len() {
                        assert(after[r][i] == before[r][i]);
                    }
                }
            }
        }
        let ghost rows = contents(by_row@);
        let mut by_col = empty_lists(ncols);
        proof {
            lemma_joined_empty(ncols as nat, ncols as int);
            assert(contents(by_col@) =~= Seq::new(ncols as nat, |c: int| column_upto(*ar, t, c, 0)));
        }
        for row in 0..nrows
            invariant
                t == triplets@,
                rows == contents(by_row@),
                nrows < u32::MAX,
                ncols < u32::MAX,
                by_row@.len() == nrows,
                by_col@.len() == ncols,
                rows == Seq::new(nrows as nat, |r: int| row_terms(t, r, t.len() as int)),
                forall|r: int, i: int|
                    0 <= r < nrows && 0 <= i < rows[r].len() ==> (#[trigger] rows[r][i]).0 < ncols,
                joined(contents(by_col@), ncols as int).len() <= joined(rows, row as int).len(),
                forall|c: int, i: int|
                    0 <= c < ncols && 0 <= i < contents(by_col@)[c].len() ==> (
                    #[trigger] contents(by_col@)[c][i]).0 < row,
                functional(*ar) ==> contents(by_col@) == Seq::new(
                    ncols as nat,
                    |c: int| column_upto(*ar, t, c, row as int),
                ),
        {
            let terms = &by_row[row];
            proof {
                assert(terms@ == rows[row as int]);
            }
            for i in 0..terms.len()
                invariant
                    rows == contents(by_row@),
                    terms@ == rows[row as int],
                    row < nrows < u32::MAX,
                    ncols < u32::MAX,
                    by_row@.len() == nrows,
                    by_col@.len() == ncols,
                    forall|r: int, i: int|
                        0 <= r < nrows && 0 <= i < rows[r].len() ==> (#[trigger] rows[r][i]).0
                            < ncols,
                    joined(contents(by_col@), ncols as int).len() <= joined(rows, row as int).len()
                        + i,
                    forall|c: int, i: int|
                        0 <= c < ncols && 0 <= i < contents(by_col@)[c].len() ==> (
                        #[trigger] contents(by_col@)[c][i]).0 <= row,
                    functional(*ar) ==> contents(by_col@) == Seq::new(
                        ncols as nat,
                        |c: int|
                            followed(
                                column_upto(*ar, t, c, row as int),
                                row as int,
                                term_total(*ar, terms@, c, i as int),
                            ),
                    ),
            {
                let (col, value) = terms[i];
                let ghost before = contents(by_col@);
                proof {
                    assert(rows[row as int][i as int].0 < ncols);
                    assert(before[col as int] == by_col@[col as int]@);
                    lemma_column_rows(*ar, t, col as int, row as int);
                }
                let column: usize = col as usize;
                let n: usize = by_col[column].len();
                let mut entry = (row as u32, value);
                if n > 0 && by_col[column][n - 1].0 == row as u32 {
                    let s = by_col[column][n - 1].1;
                    entry = (row as u32, plus(ar, s, value));
                    by_col[column].pop();
                    proof {
                        let shorter = contents(by_col@);
                        assert(shorter =~= before.update(col as int, before[col as int].drop_last()));
                        lemma_joined_push(
                            shorter,
                            col as int,
                            before[col as int].last(),
                            ncols as int,
                        );
                        assert(before[col as int] =~= shorter[col as int].push(
                            before[col as int].last(),
                        ));
                        assert(before =~= shorter.update(
                            col as int,
                            shorter[col as int].push(before[col as int].last()),
                        ));
                    }
                }
                let ghost middle = contents(by_col@);
                by_col[column].push(entry);
                proof {
                    let after = contents(by_col@);
                    assert(after =~= middle.update(col as int, middle[col as int].push(entry)));
                    lemma_joined_push(middle, col as int, entry, ncols as int);
                    assert forall|c: int, k: int| 0 <= c < ncols && 0 <= k < after[c].len() implies (
                    #[trigger] after[c][k]).0 <= row by {
                        if k < middle[c].len() {
                            assert(after[c][k] == before[c][k]);
                        }
                    }
                    if functional(*ar) {
                        let goal = Seq::new(
                            ncols as nat,
                            |c: int|
                                followed(
                                    column_upto(*ar, t, c, row as int),
                                    row as int,
                                    term_total(*ar, terms@, c, i as int + 1),
                                ),
                        );
                        assert forall|c: int| 0 <= c < ncols implies after[c] == goal[c] by {
                            if c == col {
                                let old_column = column_upto(*ar, t, c, row as int);
                                match term_total(*ar, terms@, c, i as int) {
                                    None => {
                                        assert(before[c] == old_column);
                                        if n > 0 {
                                            assert(old_column[n - 1].0 < row);
                                        }
                                    },
                                    Some(s) => {
                                        assert(before[c] == old_column.push((row as u32, s)));
                                        assert(before[c].drop_last() =~= old_column);
                                    },
                                }
                            }
                        }
                        assert(after =~= goal);
                    }
                }
            }
            proof {
                assert(joined(rows, row + 1).len() == joined(rows, row as int).len() + terms@.len());
                if functional(*ar) {
                    let goal = Seq::new(
                        ncols as nat,
                        |c: int| column_upto(*ar, t, c, row as int + 1),
                    );
                    assert forall|c: int| 0 <= c < ncols implies contents(by_col@)[c] == goal[c] by {
                        lemma_term_total(*ar, t, row as int, c, t.len() as int);
                    }
                    assert(contents(by_col@) =~= goal);
                }
            }
        }
        proof {
            lemma_packed_wf(nrows as nat, contents(by_col@));
        }
        Ok(pack(nrows, &by_col))
    }
}

/// The first `n` entries of column `k` of `a`, each multiplied by `v` and put into
/// column `c`.
pub open spec fn scaled_column<A: Arithmetic>(
    ar: A,
    a: Csc,
    k: int,
    c: int,
    v: Real,
    n: nat,
) -> Seq<Triplet> {
    Seq::new(
        n,
        |i: int|
            (a.rows[a.starts[k] + i], c as u32, product_of(ar, a.values[a.starts[k] + i], v)),
    )
}

/// The products that make up `a * b`, as far as the first `q` entries of `b` go.
pub open spec fn product_terms<A: Arithmetic>(ar: A, a: Csc, b: Csc, q: int) -> Seq<Triplet>
    decreases q,
{
    if q <= 0 {
        Seq::empty()
    } else {
        let k = b.rows[q - 1] as int;
        product_terms(ar, a, b, q - 1) + scaled_column(
            ar,
            a,
            k,
            b.column_of(q - 1),
            b.values[q - 1],
            (a.starts[k + 1] - a.starts[k]) as nat,
        )
    }
}

/// The number of products that make up `a * b`, as far as the first `q` entries of `b` go.
pub open spec fn product_count(a: Csc, b: Csc, q: int) -> int
    decreases q,
{
    if q <= 0 {
        0
    } else {
        let k = b.rows[q - 1] as int;
        product_count(a, b, q - 1) + (a.starts[k + 1] - a.starts[k])
    }
}

/// The product of two matrices.
pub open spec fn product<A: Arithmetic>(ar: A, a: Csc, b: Csc) -> Csc {
    assembled(ar, a.nrows, b.ncols, product_terms(ar, a, b, b.nnz() as int))
}

/// Whether the product of two matrices exists and the products of entries that make it up
/// can be counted in 32 bits.
pub open spec fn multipliable(a: Csc, b: Csc) -> bool {
    &&& a.ncols == b.nrows
    &&& a.nrows < u32::MAX
    &&& b.ncols < u32::MAX
    &&& product_count(a, b, b.nnz() as int) <= u32::MAX
}

/// The diagonal of an `n` by `n` matrix with `v` everywhere on it.
pub open spec fn diagonal(n: nat, v: Real) -> Seq<Triplet> {
    Seq::new(n, |j: int| (j as u32, j as u32, v))
}

/// The matrix `m` with `v` added to its diagonal.
pub open spec fn diagonally_loaded<A: Arithmetic>(ar: A, m: Csc, v: Real) -> Csc {
    assembled(ar, m.nrows, m.ncols, m.triplets() + diagonal(m.ncols, v))
}

impl SparseColMatOwned {
    /// The stored entries as triplets, in storage order.
    pub fn triplets(&self) -> (r: Vec<Triplet>)
        requires
            self.wf(),
        ensures
            r@ == self@.triplets(),
            placed(r@, self.nrows as nat, self.ncols as nat),
    {
        let ghost m = self@;
        let mut r: Vec<Triplet> = Vec::new();
        for col in 0..self.ncols
            invariant
                self.wf(),
                m == self@,
                r@.len() == m.starts[col as int],
                m.starts[col as int] <= m.nnz(),
                forall|k: int| 0 <= k < r@.len() ==> #[trigger] r@[k] == m.triplets()[k],
                placed(r@, m.nrows, m.ncols),
        {
            let start: usize = self.col_ptrs[col] as usize;
            let end: usize = self.col_ptrs[col + 1] as usize;
            assert(m.starts[col as int] <= m.starts[col + 1]);
            assert(m.starts[col + 1] <= m.starts[m.ncols as int]);
            for nz in start..end
                invariant
                    self.wf(),
                    m == self@,
                    col < self.ncols,
                    start == m.starts[col as int],
                    end == m.starts[col + 1],
                    end <= m.nnz(),
                    r@.len() == nz,
                    forall|k: int| 0 <= k < r@.len() ==> #[trigger] r@[k] == m.triplets()[k],
                    placed(r@, m.nrows, m.ncols),
            {
                proof {
                    assert(m.rows[nz as int] < m.nrows);
                    lemma_column(m, nz as int, col as int);
                }
                r.push((self.row_indices[nz], col as u32, self.values[nz]));
            }
        }
        proof {
            assert(r@ =~= m.triplets());
        }
        r
    }

    /// The product of two matrices.
    pub fn sparse_times_sparse<A: Arithmetic>(
        ar: &A,
        a: &SparseColMatOwned,
        b: &SparseColMatOwned,
    ) -> (r: Result<SparseColMatOwned, TheseusError>)
        requires
            a.wf(),
            b.wf(),
        ensures
            r is Ok <==> multipliable(a@, b@),
            r is Err ==> r == Err::<SparseColMatOwned, _>(TheseusError::Shape(Complaint::Triplets)),
            r matches Ok(m) ==> m.wf() && m.nrows == a.nrows && m.ncols == b.ncols,
            r matches Ok(m) ==> functional(*ar) ==> m@ == product(*ar, a@, b@),
    {
        if a.ncols != b.nrows {
            return Err(TheseusError::Shape(Complaint::Triplets));
        }
        let mut terms: Vec<Triplet> = Vec::new();
        for col in 0..b.ncols
            invariant
                a.wf(),
                b.wf(),
                a.ncols == b.nrows,
                b@.starts[col as int] <= b@.nnz(),
                terms@.len() == product_count(a@, b@, b@.starts[col as int] as int),
                placed(terms@, a.nrows as nat, b.ncols as nat),
                functional(*ar) ==> terms@ == product_terms(
                    *ar,
                    a@,
                    b@,
                    b@.starts[col as int] as int,
                ),
        {
            let start: usize = b.col_ptrs[col] as usize;
            let end: usize = b.col_ptrs[col + 1] as usize;
            assert(b@.starts[col as int] <= b@.starts[col + 1]);
            assert(b@.starts[col + 1] <= b@.starts[b.ncols as int]);
            for q in start..end
                invariant
                    a.wf(),
                    b.wf(),
                    a.ncols == b.nrows,
                    col < b.ncols,
                    start == b@.starts[col as int],
                    end == b@.starts[col + 1],
                    end <= b@.nnz(),
                    terms@.len() == product_count(a@, b@, q as int),
                    placed(terms@, a.nrows as nat, b.ncols as nat),
                    functional(*ar) ==> terms@ == product_terms(*ar, a@, b@, q as int),
            {
                let k: usize = b.row_indices[q] as usize;
                let v = b.values[q];
                proof {
                    assert(b@.rows[q as int] < b@.nrows);
                    lemma_column(b@, q as int, col as int);
                    assert(a@.starts[k as int] <= a@.starts[k + 1]);
                    assert(a@.starts[k + 1] <= a@.starts[a.ncols as int]);
                }
                let first: usize = a.col_ptrs[k] as usize;
                let last: usize = a.col_ptrs[k + 1] as usize;
                let ghost before = terms@;
                for p in first..last
                    invariant
                        a.wf(),
                        k < a.ncols,
                        col < b.ncols,
                        first == a@.starts[k as int],
                        last == a@.starts[k + 1],
                        last <= a@.nnz(),
                        placed(terms@, a.nrows as nat, b.ncols as nat),
                        terms@.len() == before.len() + (p - first),
                        functional(*ar) ==> terms@ == before + scaled_column(
                            *ar,
                            a@,
                            k as int,
                            col as int,
                            v,
                            (p - first) as nat,
                        ),
                {
                    let ghost so_far = terms@;
                    proof {
                        assert(a@.rows[p as int] < a@.nrows);
                    }
                    let value = times(ar, a.values[p], v);
                    terms.push((a.row_indices[p], col as u32, value));
                    proof {
                        if functional(*ar) {
                            assert(terms@ =~= before + scaled_column(
                                *ar,
                                a@,
                                k as int,
                                col as int,
                                v,
                                (p + 1 - first) as nat,
                            ));
                        }
                        assert forall|i: int| 0 <= i < terms@.len() implies (
                        #[trigger] terms@[i]).0 < a.nrows && terms@[i].1 < b.ncols by {
                            if i < so_far.len() {
                                assert(terms@[i] == so_far[i]);
                            }
                        }
                    }
                }
            }
        }
        SparseColMatOwned::from_triplets(ar, a.nrows, b.ncols, &terms)
    }

    /// Adds `v` to every entry of the diagonal.
    pub fn add_diagonal<A: Arithmetic>(&self, ar: &A, v: Real) -> (r: Result<
        SparseColMatOwned,
        TheseusError,
    >)
        requires
            self.wf(),
            self.nrows == self.ncols,
        ensures
            r is Ok <==> self.ncols < u32::MAX && self@.nnz() + self.ncols <= u32::MAX,
            r is Err ==> r == Err::<SparseColMatOwned, _>(TheseusError::Shape(Complaint::Triplets)),
            r matches Ok(m) ==> m.wf() && m.nrows == self.nrows && m.ncols == self.ncols,
            r matches Ok(m) ==> functional(*ar) ==> m@ == diagonally_loaded(*ar, self@, v),
    {
        let mut terms = self.triplets();
        let ghost before = terms@;
        if self.ncols >= u32::MAX as usize {
            return Err(TheseusError::Shape(Complaint::Triplets));
        }
        for j in 0..self.ncols
            invariant
                self.ncols < u32::MAX,
                self.nrows == self.ncols,
                placed(before, self.nrows as nat, self.ncols as nat),
                terms@ == before + diagonal(j as nat, v),
        {
            terms.push((j as u32, j as u32, v));
            proof {
                assert(terms@ =~= before + diagonal(j as nat + 1, v));
            }
        }
        proof {
            assert forall|i: int| 0 <= i < terms@.len() implies (#[trigger] terms@[i]).0 < self.nrows
                && terms@[i].1 < self.ncols by {
                if i < before.len() {
                    assert(terms@[i] == before[i]);
                }
            }
        }
        SparseColMatOwned::from_triplets(ar, self.nrows, self.ncols, &terms)
    }
}

/// The matrix with each entry of row `i` multiplied by `row_scales[i]`.
pub fn row_scaled_copy<A: Arithmetic>(
    ar: &A,
    mat: &SparseColMatOwned,
    row_scales: &Vec<Real>,
) -> (r: SparseColMatOwned)
    requires
        mat.wf(),
        row_scales@.len() == mat.nrows,
    ensures
        r.wf(),
        r.nrows == mat.nrows,
        r.ncols == mat.ncols,
        r@.starts == mat@.starts,
        r@.rows == mat@.rows,
        functional(*ar) ==> r@ == mat@.row_scaled(*ar, row_scales@),
{
    let mut values: Vec<Real> = Vec::new();
    for k in 0..mat.values.len()
        invariant
            mat.wf(),
            row_scales@.len() == mat.nrows,
            values@.len() == k,
            functional(*ar) ==> forall|i: int|
                0 <= i < k ==> #[trigger] values@[i] == product_of(
                    *ar,
                    mat.values@[i],
                    row_scales@[mat.row_indices@[i] as int],
                ),
    {
        assert(mat@.rows[k as int] < mat@.nrows);
        values.push(times(ar, mat.values[k], row_scales[mat.row_indices[k] as usize]));
    }
    let r = SparseColMatOwned {
        nrows: mat.nrows,
        ncols: mat.ncols,
        col_ptrs: mat.col_ptrs.clone(),
        row_indices: mat.row_indices.clone(),
        values,
    };
    proof {
        if functional(*ar) {
            assert(r@.values =~= mat@.row_scaled(*ar, row_scales@).values);
        }
    }
    r
}

proof fn lemma_joined_part(lists: Seq<Seq<(u32, Real)>>, j: int)
    requires
        0 <= j < lists.len(),
    ensures
        joined(lists, j + 1).len() == joined(lists, j).len() + lists[j].len(),
        forall|k: int|
            0 <= k < lists[j].len() ==> #[trigger] lists[j][k] == joined(
                lists,
                lists.len() as int,
            )[joined(lists, j).len() + k],
{
    lemma_joined_grows(lists, j + 1, lists.len() as int);
    assert forall|k: int| 0 <= k < lists[j].len() implies #[trigger] lists[j][k] == joined(
        lists,
        lists.len() as int,
    )[joined(lists, j).len() + k] by {
        assert(joined(lists, j + 1)[joined(lists, j).len() + k] == lists[j][k]);
    }
}

proof fn lemma_row_lists_total(m: Csc, k: int)
    requires
        m.wf(),
        0 <= k <= m.nnz(),
    ensures
        joined(Seq::new(m.nrows, |r: int| m.row_list(r, k)), m.nrows as int).len() == k,
    decreases k,
{
    let now = Seq::new(m.nrows, |r: int| m.row_list(r, k));
    if k == 0 {
        lemma_joined_empty(m.nrows, m.nrows as int);
        assert(now =~= Seq::new(m.nrows, |i: int| Seq::<(u32, Real)>::empty()));
    } else {
        lemma_row_lists_total(m, k - 1);
        let before = Seq::new(m.nrows, |r: int| m.row_list(r, k - 1));
        let row = m.rows[k - 1] as int;
        let entry = (m.column_of(k - 1) as u32, m.values[k - 1]);
        assert(m.rows[k - 1] < m.nrows);
        lemma_joined_push(before, row, entry, m.nrows as int);
        assert(now =~= before.update(row, before[row].push(entry)));
    }
}

/// Column `r` of the transposed matrix lists row `r` of the matrix.
pub proof fn lemma_transposed_column(m: Csc, r: int)
    requires
        m.wf(),
        0 <= r < m.nrows,
    ensures
        ({
            let t = m.transposed();
            let list = m.row_list(r, m.nnz() as int);
            &&& t.starts[r + 1] - t.starts[r] == list.len()
            &&& forall|k: int|
                0 <= k < list.len() ==> #[trigger] list[k] == (
                    t.rows[t.starts[r] + k],
                    t.values[t.starts[r] + k],
                )
        }),
{
    let lists = Seq::new(m.nrows, |i: int| m.row_list(i, m.nnz() as int));
    lemma_row_lists_total(m, m.nnz() as int);
    lemma_joined_grows(lists, r, m.nrows as int);
    lemma_joined_grows(lists, r + 1, m.nrows as int);
    lemma_joined_part(lists, r);
    let list = m.row_list(r, m.nnz() as int);
    let t = m.transposed();
    assert forall|k: int| 0 <= k < list.len() implies #[trigger] list[k] == (
        t.rows[t.starts[r] + k],
        t.values[t.starts[r] + k],
    ) by {
        assert(lists[r][k] == joined(lists, lists.len() as int)[joined(lists, r).len() + k]);
    }
}

/// Triplets from separate lists of rows, columns and values.
pub open spec fn zipped(rows: Seq<usize>, cols: Seq<usize>, values: Seq<Real>) -> Seq<Triplet> {
    Seq::new(rows.len(), |k: int| (rows[k] as u32, cols[k] as u32, values[k]))
}

/// Whether a matrix of this size can be assembled from separate lists.
pub open spec fn coordinates_fit(
    nrows: nat,
    ncols: nat,
    rows: Seq<usize>,
    cols: Seq<usize>,
    values: Seq<Real>,
) -> bool {
    &&& rows.len() == cols.len() == values.len()
    &&& forall|k: int| 0 <= k < rows.len() ==> #[trigger] rows[k] < nrows && cols[k] < ncols
    &&& nrows < u32::MAX
    &&& ncols < u32::MAX
    &&& rows.len() <= u32::MAX
}

/// The entries of column `c`, as row and value.
pub open spec fn column_list(m: Csc, c: int) -> Seq<(u32, Real)> {
    Seq::new(
        (m.starts[c + 1] - m.starts[c]) as nat,
        |k: int| (m.rows[m.starts[c] + k], m.values[m.starts[c] + k]),
    )
}

/// The matrix that consists of the given columns.
pub open spec fn extracted(m: Csc, columns: Seq<usize>) -> Csc {
    packed(m.nrows, Seq::new(columns.len(), |j: int| column_list(m, columns[j] as int)))
}

/// The number of entries in the first `j` of the given columns.
pub open spec fn extracted_count(m: Csc, columns: Seq<usize>, j: int) -> int
    decreases j,
{
    if j <= 0 {
        0
    } else {
        extracted_count(m, columns, j - 1) + (m.starts[columns[j - 1] + 1]
            - m.starts[columns[j - 1] as int])
    }
}

/// Whether the matrix of the given columns exists and can be indexed in 32 bits.
pub open spec fn extractable(m: Csc, columns: Seq<usize>) -> bool {
    &&& forall|j: int| 0 <= j < columns.len() ==> #[trigger] columns[j] < m.ncols
    &&& columns.len() < usize::MAX
    &&& extracted_count(m, columns, columns.len() as int) <= u32::MAX
}

/// Whether `e` tells why columns cannot be taken: the first of them that does not exist,
/// or else that there would be too many entries.
pub open spec fn extraction_refused(m: Csc, columns: Seq<usize>, e: TheseusError) -> bool {
    if columns.len() < usize::MAX && exists|j: int|
        0 <= j < columns.len() && #[trigger] columns[j] >= m.ncols {
        exists|j: int|
            {
                &&& 0 <= j < columns.len()
                &&& #[trigger] columns[j] >= m.ncols
                &&& forall|i: int| 0 <= i < j ==> #[trigger] columns[i] < m.ncols
                &&& e == TheseusError::Shape(Complaint::NodeRange { node: columns[j] })
            }
    } else {
        !extractable(m, columns) && e == TheseusError::Shape(Complaint::Triplets)
    }
}

impl SparseColMatOwned {
    /// Assembles a matrix from separate lists of rows, columns and values.
    pub fn from_coo<A: Arithmetic>(
        ar: &A,
        nrows: usize,
        ncols: usize,
        rows: &Vec<usize>,
        cols: &Vec<usize>,
        values: &Vec<Real>,
    ) -> (r: Result<SparseColMatOwned, TheseusError>)
        ensures
            r is Ok <==> coordinates_fit(nrows as nat, ncols as nat, rows@, cols@, values@),
            r matches Err(e) ==> e == TheseusError::Shape(Complaint::Triplets),
            r matches Ok(m) ==> m.wf() && m.nrows == nrows && m.ncols == ncols,
            r matches Ok(m) ==> functional(*ar) ==> m@ == assembled(
                *ar,
                nrows as nat,
                ncols as nat,
                zipped(rows@, cols@, values@),
            ),
    {
        if nrows >= u32::MAX as usize || ncols >= u32::MAX as usize || rows.len() != cols.len()
            || rows.len() != values.len() {
            return Err(TheseusError::Shape(Complaint::Triplets));
        }
        let mut terms: Vec<Triplet> = Vec::new();
        for k in 0..rows.len()
            invariant
                nrows < u32::MAX,
                ncols < u32::MAX,
                rows@.len() == cols@.len() == values@.len(),
                terms@.len() == k,
                placed(terms@, nrows as nat, ncols as nat),
                forall|i: int| 0 <= i < k ==> #[trigger] rows@[i] < nrows && cols@[i] < ncols,
                forall|i: int|
                    0 <= i < k ==> #[trigger] terms@[i] == zipped(rows@, cols@, values@)[i],
        {
            if rows[k] >= nrows || cols[k] >= ncols {
                assert(!(rows@[k as int] < nrows && cols@[k as int] < ncols));
                return Err(TheseusError::Shape(Complaint::Triplets));
            }
            terms.push((rows[k] as u32, cols[k] as u32, values[k]));
        }
        proof {
            assert(terms@ =~= zipped(rows@, cols@, values@));
        }
        SparseColMatOwned::from_triplets(ar, nrows, ncols, &terms)
    }

    /// The matrix that consists of the given columns.
    pub fn extract_columns(&self, columns: &Vec<usize>) -> (r: Result<
        SparseColMatOwned,
        TheseusError,
    >)
        requires
            self.wf(),
        ensures
            r is Ok <==> extractable(self@, columns@),
            r matches Err(e) ==> extraction_refused(self@, columns@, e),
            r matches Ok(m) ==> m.wf() && m.nrows == self.nrows && m.ncols == columns@.len(),
            r matches Ok(m) ==> m@ == extracted(self@, columns@),
    {
        let ghost m = self@;
        if columns.len() == usize::MAX {
            return Err(TheseusError::Shape(Complaint::Triplets));
        }
        let mut lists: Vec<Vec<(u32, Real)>> = Vec::new();
        let mut total: u128 = 0;
        for j in 0..columns.len()
            invariant
                self.wf(),
                m == self@,
                columns@.len() < usize::MAX,
                lists@.len() == j,
                total == extracted_count(m, columns@, j as int),
                total <= j * 0xFFFF_FFFF,
                forall|i: int| 0 <= i < j ==> #[trigger] columns@[i] < m.ncols,
                forall|i: int|
                    0 <= i < j ==> (#[trigger] lists@[i])@ == column_list(m, columns@[i] as int),
                joined(contents(lists@), j as int).len() == total,
        {
            let c: usize = columns[j];
            if c >= self.ncols {
                assert(columns@[j as int] >= m.ncols);
                return Err(TheseusError::Shape(Complaint::NodeRange { node: c }));
            }
            let start: usize = self.col_ptrs[c] as usize;
            let end: usize = self.col_ptrs[c + 1] as usize;
            assert(m.starts[c as int] <= m.starts[c + 1]);
            assert(m.starts[c + 1] <= m.starts[m.ncols as int]);
            let mut list: Vec<(u32, Real)> = Vec::new();
            for k in start..end
                invariant
                    self.wf(),
                    m == self@,
                    c < self.ncols,
                    start == m.starts[c as int],
                    end == m.starts[c + 1],
                    end <= m.nnz(),
                    list@.len() == k - start,
                    forall|i: int|
                        0 <= i < list@.len() ==> #[trigger] list@[i] == column_list(
                            m,
                            c as int,
                        )[i],
            {
                list.push((self.row_indices[k], self.values[k]));
            }
            assert(list@ =~= column_list(m, c as int));
            let ghost before = contents(lists@);
            assert(total + (end - start) <= (j + 1) * 0xFFFF_FFFF) by (nonlinear_arith)
                requires
                    total <= j * 0xFFFF_FFFF,
                    0 <= end - start <= 0xFFFF_FFFF,
            ;
            assert((j + 1) * 0xFFFF_FFFF <= 0xFFFF_FFFF_FFFF_FFFF * 0xFFFF_FFFF) by (nonlinear_arith)
                requires
                    0 <= j,
                    j + 1 <= 0xFFFF_FFFF_FFFF_FFFF,
            ;
            total = total + ((end - start) as u128);
            lists.push(list);
            proof {
                let after = contents(lists@);
                assert(after =~= before.push(list@));
                lemma_joined_same(before, after, j as int);
            }
        }
        if total > u32::MAX as u128 {
            return Err(TheseusError::Shape(Complaint::Triplets));
        }
        proof {
            let all = contents(lists@);
            assert(all =~= Seq::new(
                columns@.len(),
                |j: int| column_list(m, columns@[j] as int),
            ));
            assert forall|j: int, k: int|
                0 <= j < all.len() && 0 <= k < all[j].len() implies (#[trigger] all[j][k]).0
                < m.nrows by {
                let c = columns@[j] as int;
                assert(columns@[j] < m.ncols);
                assert(m.starts[c] <= m.starts[c + 1]);
                assert(m.starts[c + 1] <= m.starts[m.ncols as int]);
                assert(m.rows[m.starts[c] + k] < m.nrows);
            }
            lemma_packed_wf(m.nrows, all);
        }
        Ok(pack(self.nrows, &lists))
    }
}

proof fn lemma_joined_same(a: Seq<Seq<(u32, Real)>>, b: Seq<Seq<(u32, Real)>>, n: int)
    requires
        0 <= n <= a.len(),
        n <= b.len(),
        forall|j: int| 0 <= j < n ==> #[trigger] a[j] == b[j],
    ensures
        joined(a, n) == joined(b, n),
    decreases n,
{
    if n > 0 {
        lemma_joined_same(a, b, n - 1);
    }
}

/// A transposed matrix is well formed.
pub(crate) proof fn lemma_transposed_wf(m: Csc)
    requires
        m.wf(),
    ensures
        m.transposed().wf(),
        m.transposed().nrows == m.ncols,
        m.transposed().ncols == m.nrows,
        m.transposed().nnz() == m.nnz(),
{
    let lists = Seq::new(m.nrows, |r: int| m.row_list(r, m.nnz() as int));
    lemma_row_lists_total(m, m.nnz() as int);
    lemma_row_lists_bounded(m, m.nnz() as int);
    assert(joined(lists, lists.len() as int).len() == m.starts[m.ncols as int]);
    assert forall|j: int, k: int| 0 <= j < lists.len() && 0 <= k < lists[j].len() implies (
    #[trigger] lists[j][k]).0 < m.ncols by {
        assert(lists[j][k] == m.row_list(j, m.nnz() as int)[k]);
    }
    lemma_packed_wf(m.ncols, lists);
}

/// A packed matrix holds its lists.
pub(crate) proof fn lemma_packed_column(nrows: nat, lists: Seq<Seq<(u32, Real)>>, c: int)
    requires
        joined(lists, lists.len() as int).len() <= u32::MAX,
        0 <= c < lists.len(),
    ensures
        column_list(packed(nrows, lists), c) == lists[c],
{
    let m = packed(nrows, lists);
    lemma_joined_grows(lists, c, lists.len() as int);
    lemma_joined_grows(lists, c + 1, lists.len() as int);
    lemma_joined_part(lists, c);
    assert(m.starts[c] == joined(lists, c).len());
    assert(m.starts[c + 1] == joined(lists, c + 1).len());
    assert forall|k: int| 0 <= k < lists[c].len() implies #[trigger] column_list(m, c)[k]
        == lists[c][k] by {
        assert(lists[c][k] == joined(lists, lists.len() as int)[joined(lists, c).len() + k]);
    }
    assert(column_list(m, c) =~= lists[c]);
}

proof fn lemma_total_prefix<A: Arithmetic>(
    ar: A,
    t: Seq<Triplet>,
    more: Seq<Triplet>,
    r: int,
    c: int,
    k: int,
)
    requires
        0 <= k <= t.len(),
    ensures
        total(ar, t + more, r, c, k) == total(ar, t, r, c, k),
    decreases k,
{
    if k > 0 {
        lemma_total_prefix(ar, t, more, r, c, k - 1);
    }
}

/// Triplets of other rows that follow change nothing in a row.
pub(crate) proof fn lemma_total_without_the_last<A: Arithmetic>(
    ar: A,
    t: Seq<Triplet>,
    more: Seq<Triplet>,
    r: int,
    c: int,
    k: int,
)
    requires
        0 <= k <= more.len(),
        forall|i: int| 0 <= i < more.len() ==> (#[trigger] more[i]).0 != r,
    ensures
        total(ar, t + more, r, c, t.len() + k) == total(ar, t, r, c, t.len() as int),
    decreases k,
{
    if k > 0 {
        lemma_total_without_the_last(ar, t, more, r, c, k - 1);
        assert((t + more)[t.len() + k - 1] == more[k - 1]);
    } else {
        lemma_total_prefix(ar, t, more, r, c, t.len() as int);
    }
}

/// Triplets of other rows that come before change nothing in a row.
pub(crate) proof fn lemma_total_without_the_first<A: Arithmetic>(
    ar: A,
    t: Seq<Triplet>,
    more: Seq<Triplet>,
    r: int,
    c: int,
    k: int,
)
    requires
        0 <= k <= more.len(),
        forall|i: int| 0 <= i < t.len() ==> (#[trigger] t[i]).0 != r,
    ensures
        total(ar, t + more, r, c, t.len() + k) == total(ar, more, r, c, k),
    decreases k,
{
    if k > 0 {
        lemma_total_without_the_first(ar, t, more, r, c, k - 1);
        assert((t + more)[t.len() + k - 1] == more[k - 1]);
    } else {
        lemma_total_prefix(ar, t, more, r, c, t.len() as int);
        lemma_total_of_others(ar, t, r, c, t.len() as int);
    }
}

proof fn lemma_total_of_others<A: Arithmetic>(ar: A, t: Seq<Triplet>, r: int, c: int, k: int)
    requires
        0 <= k <= t.len(),
        forall|i: int| 0 <= i < t.len() ==> (#[trigger] t[i]).0 != r,
    ensures
        total(ar, t, r, c, k) is None,
    decreases k,
{
    if k > 0 {
        lemma_total_of_others(ar, t, r, c, k - 1);
        assert(t[k - 1].0 != r);
    }
}

/// Triplets of the rows from `low` on change nothing in the rows above.
pub(crate) proof fn lemma_column_without_the_last<A: Arithmetic>(
    ar: A,
    t: Seq<Triplet>,
    more: Seq<Triplet>,
    c: int,
    low: int,
    r: int,
)
    requires
        r <= low,
        forall|i: int| 0 <= i < more.len() ==> (#[trigger] more[i]).0 >= low,
    ensures
        column_upto(ar, t + more, c, r) == column_upto(ar, t, c, r),
    decreases r,
{
    if r > 0 {
        lemma_column_without_the_last(ar, t, more, c, low, r - 1);
        lemma_total_without_the_last(ar, t, more, r - 1, c, more.len() as int);
        assert((t + more).len() == t.len() + more.len());
    }
}

/// A column goes on from its first rows with entries of later rows.
pub(crate) proof fn lemma_column_goes_on<A: Arithmetic>(
    ar: A,
    t: Seq<Triplet>,
    c: int,
    low: int,
    r: int,
)
    requires
        0 <= low <= r <= u32::MAX,
    ensures
        ({
            let top = column_upto(ar, t, c, low);
            let whole = column_upto(ar, t, c, r);
            &&& top.len() <= whole.len()
            &&& whole.subrange(0, top.len() as int) == top
            &&& forall|k: int| top.len() <= k < whole.len() ==> (#[trigger] whole[k]).0 >= low
        }),
    decreases r,
{
    let top = column_upto(ar, t, c, low);
    let whole = column_upto(ar, t, c, r);
    if low < r {
        lemma_column_goes_on(ar, t, c, low, r - 1);
        let before = column_upto(ar, t, c, r - 1);
        assert forall|k: int| top.len() <= k < whole.len() implies (#[trigger] whole[k]).0
            >= low by {
            if k < before.len() {
                assert(whole[k] == before[k]);
            }
        }
        assert forall|k: int| 0 <= k < top.len() implies whole[k] == top[k] by {
            assert(before.subrange(0, top.len() as int)[k] == before[k]);
        }
    }
    assert(whole.subrange(0, top.len() as int) =~= top);
}

} // verus!
