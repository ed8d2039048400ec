//! A row-major matrix: a fixed number of rows, each an `Array` of the same
//! length.
use vstd::prelude::*;
use crate::linalg::array::{folds_to, is_dot_outcome, is_fold_trace, Array};

verus! {

/// The transpose of the rows `s`, each of length `cols`: entry `(j, i)` of
/// the result is entry `(i, j)` of `s`.
pub open spec fn transposed<T>(s: Seq<Seq<T>>, cols: nat) -> Seq<Seq<T>> {
    Seq::new(cols, |j: int| Seq::new(s.len(), |i: int| s[i][j]))
}

/// The rows of `a` with entry `i` of `b` appended to row `i`.
pub open spec fn augmented_of<T>(a: Seq<Seq<T>>, b: Seq<T>) -> Seq<Seq<T>> {
    Seq::new(a.len(), |i: int| a[i].push(b[i]))
}

/// A matrix of `rows` rows and `cols` columns; it owns its rows.
#[derive(Debug, Clone, PartialEq)]
pub struct Matrix<T> {
    rows: usize,
    cols: usize,
    arrays: Vec<Array<T>>,
}

impl<T> View for Matrix<T> {
    type V = Seq<Seq<T>>;

    closed spec fn view(&self) -> Seq<Seq<T>> {
        self.arrays@.map_values(|a: Array<T>| a@)
    }
}

impl<T> Matrix<T> {
    /// The number of rows.
    pub closed spec fn num_rows(&self) -> nat {
        self.rows as nat
    }

    /// The number of columns.
    pub closed spec fn num_cols(&self) -> nat {
        self.cols as nat
    }

    /// The matrix holds `num_rows()` rows of `num_cols()` entries each.
    pub open spec fn wf(&self) -> bool {
        &&& self@.len() == self.num_rows()
        &&& forall|i: int| 0 <= i < self@.len() ==> (#[trigger] self@[i]).len() == self.num_cols()
    }
}

impl<T: Copy> Matrix<T> {
    /// Whether all of `arrays` have the length of the first one.
    pub fn is_valid_slice(arrays: &[Array<T>]) -> (r: bool)
        requires
            arrays@.len() > 0,
        ensures
            r == (forall|i: int| 0 <= i < arrays@.len() ==> (#[trigger] arrays@[i])@.len() == arrays@[0]@.len()),
    {
        let len = arrays[0].len();
        let mut i: usize = 1;
        while i < arrays.len()
            invariant
                1 <= i <= arrays@.len(),
                len == arrays@[0]@.len(),
                forall|k: int| 0 <= k < i ==> (#[trigger] arrays@[k])@.len() == len,
            decreases arrays@.len() - i,
        {
            if arrays[i].len() != len {
                return false;
            }
            i += 1;
        }
        true
    }

    /// A matrix whose rows are `arrays`, which must all have one length.
    pub fn new(arrays: Vec<Array<T>>) -> (r: Matrix<T>)
        requires
            arrays@.len() > 0,
            forall|i: int| 0 <= i < arrays@.len() ==> (#[trigger] arrays@[i])@.len() == arrays@[0]@.len(),
        ensures
            r.wf(),
            r.num_rows() == arrays@.len(),
            r.num_cols() == arrays@[0]@.len(),
            forall|i: int| 0 <= i < arrays@.len() ==> #[trigger] r@[i] == arrays@[i]@,
    {
        let cols = arrays[0].len();
        Matrix { rows: arrays.len(), cols, arrays }
    }

    /// A `rows` by `cols` matrix whose entries all equal `val`.
    pub fn of(val: T, rows: usize, cols: usize) -> (r: Matrix<T>)
        ensures
            r.wf(),
            r.num_rows() == rows,
            r.num_cols() == cols,
            forall|i: int, j: int| 0 <= i < rows && 0 <= j < cols ==> #[trigger] r@[i][j] == val,
    {
        let mut arrays: Vec<Array<T>> = Vec::with_capacity(rows);
        let mut i: usize = 0;
        while i < rows
            invariant
                i <= rows,
                arrays@.len() == i,
                forall|k: int| 0 <= k < i ==> (#[trigger] arrays@[k])@ == Seq::new(cols as nat, |_j: int| val),
            decreases rows - i,
        {
            arrays.push(Array::of(val, cols));
            i += 1;
        }
        Matrix { rows, cols, arrays }
    }

    /// The `len` by `len` matrix with `one` on the diagonal and `zero`
    /// everywhere else.
    pub fn identity(len: usize, zero: T, one: T) -> (r: Matrix<T>)
        ensures
            r.wf(),
            r.num_rows() == len,
            r.num_cols() == len,
            forall|i: int, j: int| 0 <= i < len && 0 <= j < len ==> #[trigger] r@[i][j] == (if i == j { one } else { zero }),
    {
        let mut mat = Matrix::of(zero, len, len);
        let mut i: usize = 0;
        while i < len
            invariant
                i <= len,
                mat.wf(),
                mat.num_rows() == len,
                mat.num_cols() == len,
                forall|a: int, b: int| 0 <= a < len && 0 <= b < len ==> #[trigger] mat@[a][b] == (if a == b && a < i { one } else { zero }),
            decreases len - i,
        {
            mat.set(one, i, i);
            i += 1;
        }
        mat
    }

    /// The pair `(rows, cols)`.
    pub fn dimensions(&self) -> (r: (usize, usize))
        ensures
            r.0 == self.num_rows(),
            r.1 == self.num_cols(),
    {
        (self.rows, self.cols)
    }

    /// Row `i`.
    pub fn row(&self, i: usize) -> (r: &Array<T>)
        requires
            self.wf(),
            i < self.num_rows(),
        ensures
            r@ == self@[i as int],
    {
        &self.arrays[i]
    }

    /// The rows, as a slice.
    pub fn as_slice(&self) -> (r: &[Array<T>])
        requires
            self.wf(),
        ensures
            r@.len() == self.num_rows(),
            forall|i: int| 0 <= i < r@.len() ==> (#[trigger] r@[i])@ == self@[i],
    {
        self.arrays.as_slice()
    }

    /// Entry `(i, j)`.
    pub fn get(&self, i: usize, j: usize) -> (r: T)
        requires
            self.wf(),
            i < self.num_rows(),
            j < self.num_cols(),
        ensures
            r == self@[i as int][j as int],
    {
        assert(self@[i as int] == self.arrays@[i as int]@);
        self.arrays[i].get(j)
    }

    /// Overwrites entry `(i, j)` with `val`.
    pub fn set(&mut self, val: T, i: usize, j: usize)
        requires
            old(self).wf(),
            i < old(self).num_rows(),
            j < old(self).num_cols(),
        ensures
            final(self).wf(),
            final(self).num_rows() == old(self).num_rows(),
            final(self).num_cols() == old(self).num_cols(),
            final(self)@ == old(self)@.update(i as int, old(self)@[i as int].update(j as int, val)),
    {
        assert(self@[i as int] == self.arrays@[i as int]@);
        self.arrays[i].set(val, j);
        assert(self@ =~= old(self)@.update(i as int, old(self)@[i as int].update(j as int, val)));
    }

    /// A fresh copy of entries `first..last` of row `row`.
    pub fn splice(&self, row: usize, first: usize, last: usize) -> (r: Array<T>)
        requires
            self.wf(),
            row < self.num_rows(),
            first < last,
            last <= self.num_cols(),
        ensures
            r@ == self@[row as int].subrange(first as int, last as int),
    {
        self.row(row).splice(first, last)
    }

    /// Writes `arr` into row `row`, aligned to its last column: entry `e`
    /// of `arr` goes to column `e + num_cols() - arr.len()`.
    pub fn set_row(&mut self, arr: Array<T>, row: usize)
        requires
            old(self).wf(),
            row < old(self).num_rows(),
            arr@.len() <= old(self).num_cols(),
        ensures
            final(self).wf(),
            final(self).num_rows() == old(self).num_rows(),
            final(self).num_cols() == old(self).num_cols(),
            final(self)@ == old(self)@.update(
                row as int,
                old(self)@[row as int].subrange(0, old(self).num_cols() - arr@.len()) + arr@,
            ),
    {
        let offset: usize = self.cols - arr.len();
        let ghost orow = old(self)@[row as int];
        let ghost n = old(self).num_cols() as int;
        proof {
            assert(orow.len() == n);
            assert(orow.subrange(0, offset as int) + arr@.subrange(0, 0) + orow.subrange(offset as int, n) =~= orow);
            assert(old(self)@.update(row as int, orow) =~= old(self)@);
        }
        let mut e: usize = 0;
        while e < arr.len()
            invariant
                old(self).wf(),
                self.wf(),
                self.num_rows() == old(self).num_rows(),
                self.num_cols() == old(self).num_cols(),
                row < self.num_rows(),
                orow == old(self)@[row as int],
                n == self.num_cols(),
                orow.len() == n,
                offset + arr@.len() == n,
                e <= arr@.len(),
                self@ == old(self)@.update(
                    row as int,
                    orow.subrange(0, offset as int) + arr@.subrange(0, e as int)
                        + orow.subrange(offset + e as int, n),
                ),
            decreases arr@.len() - e,
        {
            let ghost before = self@;
            self.set(arr.get(e), row, e + offset);
            proof {
                let cur = orow.subrange(0, offset as int) + arr@.subrange(0, e as int)
                    + orow.subrange(offset + e as int, n);
                let next = orow.subrange(0, offset as int) + arr@.subrange(0, e as int + 1)
                    + orow.subrange(offset + e as int + 1, n);
                assert(before[row as int] == cur);
                assert(next =~= cur.update(offset + e as int, arr@[e as int]));
                assert(self@ =~= old(self)@.update(row as int, next));
            }
            e += 1;
        }
        proof {
            assert(arr@.subrange(0, arr@.len() as int) =~= arr@);
            assert(orow.subrange(0, offset as int) + arr@.subrange(0, arr@.len() as int)
                + orow.subrange(offset + arr@.len(), n) =~= orow.subrange(0, n - arr@.len()) + arr@);
        }
    }

    /// Exchanges rows `i` and `j`.
    pub fn swap_rows(&mut self, i: usize, j: usize)
        requires
            old(self).wf(),
            i < old(self).num_rows(),
            j < old(self).num_rows(),
        ensures
            final(self).wf(),
            final(self).num_rows() == old(self).num_rows(),
            final(self).num_cols() == old(self).num_cols(),
            final(self)@ == old(self)@.update(i as int, old(self)@[j as int]).update(j as int, old(self)@[i as int]),
    {
        if i != j {
            let mut tmp: Array<T> = Array::new();
            self.arrays.set_and_swap(i, &mut tmp);
            self.arrays.set_and_swap(j, &mut tmp);
            self.arrays.set_and_swap(i, &mut tmp);
        }
        assert(self@ =~= old(self)@.update(i as int, old(self)@[j as int]).update(j as int, old(self)@[i as int]));
    }

    /// A fresh matrix with `column` appended to every row as one more last
    /// column.
    pub fn augment(&self, column: &Array<T>) -> (r: Matrix<T>)
        requires
            self.wf(),
            column@.len() == self.num_rows(),
            self.num_cols() < usize::MAX,
        ensures
            r.wf(),
            r.num_rows() == self.num_rows(),
            r.num_cols() == self.num_cols() + 1,
            r@ == augmented_of(self@, column@),
    {
        let mut arrays: Vec<Array<T>> = Vec::with_capacity(self.rows);
        let single: Array<T> = Array::new();
        let mut i: usize = 0;
        while i < self.rows
            invariant
                self.wf(),
                column@.len() == self.num_rows(),
                self.num_cols() < usize::MAX,
                i <= self.num_rows(),
                arrays@.len() == i,
                forall|k: int| 0 <= k < i ==> (#[trigger] arrays@[k])@ == self@[k].push(column@[k]),
            decreases self.num_rows() - i,
        {
            let tail = Array::of(column.get(i), 1);
            let extended = self.row(i).concat(&tail);
            assert(extended@ =~= self@[i as int].push(column@[i as int]));
            arrays.push(extended);
            i += 1;
        }
        let r = Matrix { rows: self.rows, cols: self.cols + 1, arrays };
        assert forall|k: int| 0 <= k < self.num_rows() implies #[trigger] r@[k] == self@[k].push(column@[k]) by {
            assert(r@[k] == r.arrays@[k]@);
        }
        assert(r@ =~= augmented_of(self@, column@));
        r
    }

    /// A fresh `num_cols()` by `num_rows()` matrix whose entry `(j, i)` is
    /// entry `(i, j)` of `self`.
    pub fn transpose(&self) -> (r: Matrix<T>)
        requires
            self.wf(),
        ensures
            r.wf(),
            r.num_rows() == self.num_cols(),
            r.num_cols() == self.num_rows(),
            r@ == transposed(self@, self.num_cols()),
    {
        let mut arrays: Vec<Array<T>> = Vec::with_capacity(self.cols);
        let mut j: usize = 0;
        while j < self.cols
            invariant
                self.wf(),
                j <= self.num_cols(),
                arrays@.len() == j,
                forall|k: int| 0 <= k < j ==> (#[trigger] arrays@[k])@ == transposed(self@, self.num_cols())[k],
            decreases self.num_cols() - j,
        {
            let mut column: Vec<T> = Vec::with_capacity(self.rows);
            let mut i: usize = 0;
            while i < self.rows
                invariant
                    self.wf(),
                    j < self.num_cols(),
                    i <= self.num_rows(),
                    column@ == Seq::new(i as nat, |a: int| self@[a][j as int]),
                decreases self.num_rows() - i,
            {
                column.push(self.get(i, j));
                i += 1;
            }
            let col = Array::from(column.as_slice());
            assert(col@ =~= transposed(self@, self.num_cols())[j as int]);
            arrays.push(col);
            j += 1;
        }
        let r = Matrix { rows: self.cols, cols: self.rows, arrays };
        assert(r@ =~= transposed(self@, self.num_cols())) by {
            assert forall|k: int| 0 <= k < r@.len() implies #[trigger] r@[k] == transposed(self@, self.num_cols())[k] by {
                assert(r@[k] == r.arrays@[k]@);
            }
        }
        r
    }

    /// A fresh matrix of the same shape whose entry `(i, j)` is what `f`
    /// returns on entry `(i, j)` of `self`.
    pub fn map<F: Fn(T) -> T>(&self, f: F) -> (r: Matrix<T>)
        requires
            self.wf(),
            forall|a: T| f.requires((a,)),
        ensures
            r.wf(),
            r.num_rows() == self.num_rows(),
            r.num_cols() == self.num_cols(),
            forall|i: int, j: int|
                0 <= i < self.num_rows() && 0 <= j < self.num_cols() ==> f.ensures((self@[i][j],), #[trigger] r@[i][j]),
    {
        let mut arrays: Vec<Array<T>> = Vec::with_capacity(self.rows);
        let mut i: usize = 0;
        while i < self.rows
            invariant
                self.wf(),
                forall|a: T| f.requires((a,)),
                i <= self.num_rows(),
                arrays@.len() == i,
                forall|k: int| 0 <= k < i ==> (#[trigger] arrays@[k])@.len() == self.num_cols(),
                forall|k: int, j: int|
                    0 <= k < i && 0 <= j < self.num_cols() ==> f.ensures((self@[k][j],), #[trigger] arrays@[k]@[j]),
            decreases self.num_rows() - i,
        {
            let mapped = self.row(i).map(&f);
            arrays.push(mapped);
            i += 1;
        }
        let r = Matrix { rows: self.rows, cols: self.cols, arrays };
        assert forall|k: int| 0 <= k < r@.len() implies #[trigger] r@[k] == r.arrays@[k]@ by {}
        r
    }

    /// A fresh matrix of the same shape whose entry `(i, j)` is what `f`
    /// returns on entry `(i, j)` of `self` and of `other`; the shapes must
    /// agree.
    pub fn zip_with<F: Fn(T, T) -> T>(&self, other: &Matrix<T>, f: F) -> (r: Matrix<T>)
        requires
            self.wf(),
            other.wf(),
            self.num_rows() == other.num_rows(),
            self.num_cols() == other.num_cols(),
            forall|a: T, b: T| f.requires((a, b)),
        ensures
            r.wf(),
            r.num_rows() == self.num_rows(),
            r.num_cols() == self.num_cols(),
            forall|i: int, j: int|
                0 <= i < self.num_rows() && 0 <= j < self.num_cols()
                    ==> f.ensures((self@[i][j], other@[i][j]), #[trigger] r@[i][j]),
    {
        let mut arrays: Vec<Array<T>> = Vec::with_capacity(self.rows);
        let mut i: usize = 0;
        while i < self.rows
            invariant
                self.wf(),
                other.wf(),
                self.num_rows() == other.num_rows(),
                self.num_cols() == other.num_cols(),
                forall|a: T, b: T| f.requires((a, b)),
                i <= self.num_rows(),
                arrays@.len() == i,
                forall|k: int| 0 <= k < i ==> (#[trigger] arrays@[k])@.len() == self.num_cols(),
                forall|k: int, j: int|
                    0 <= k < i && 0 <= j < self.num_cols()
                        ==> f.ensures((self@[k][j], other@[k][j]), #[trigger] arrays@[k]@[j]),
            decreases self.num_rows() - i,
        {
            let combined = self.row(i).zip_with(other.row(i), &f);
            arrays.push(combined);
            i += 1;
        }
        let r = Matrix { rows: self.rows, cols: self.cols, arrays };
        assert forall|k: int| 0 <= k < r@.len() implies #[trigger] r@[k] == r.arrays@[k]@ by {}
        r
    }

    /// The product as this library orients it: entry `(i, j)` of the result
    /// is the dot product, built from `mul` and `add` from `zero`, of column
    /// `j` of `self` and row `i` of `other`. It takes `self` with as many rows
    /// as `other` has columns, and the reverse, and has the shape
    /// `other.num_rows()` by `self.num_cols()`.
    pub fn mult_with<M: Fn(T, T) -> T + Copy, A: Fn(T, T) -> T + Copy>(&self, other: &Matrix<T>, zero: T, mul: M, add: A) -> (r: Matrix<T>)
        requires
            self.wf(),
            other.wf(),
            self.num_rows() == other.num_cols(),
            self.num_cols() == other.num_rows(),
            forall|a: T, b: T| mul.requires((a, b)),
            forall|a: T, b: T| add.requires((a, b)),
        ensures
            r.wf(),
            r.num_rows() == other.num_rows(),
            r.num_cols() == self.num_cols(),
            forall|i: int, j: int|
                0 <= i < other.num_rows() && 0 <= j < self.num_cols() ==> is_dot_outcome(
                    mul,
                    add,
                    zero,
                    transposed(self@, self.num_cols())[j],
                    other@[i],
                    #[trigger] r@[i][j],
                ),
    {
        let t = self.transpose();
        let mut arrays: Vec<Array<T>> = Vec::with_capacity(self.cols);
        let mut i: usize = 0;
        while i < self.cols
            invariant
                self.wf(),
                other.wf(),
                t.wf(),
                t.num_rows() == self.num_cols(),
                t.num_cols() == self.num_rows(),
                t@ == transposed(self@, self.num_cols()),
                self.num_rows() == other.num_cols(),
                self.num_cols() == other.num_rows(),
                forall|a: T, b: T| mul.requires((a, b)),
                forall|a: T, b: T| add.requires((a, b)),
                i <= self.num_cols(),
                arrays@.len() == i,
                forall|k: int| 0 <= k < i ==> (#[trigger] arrays@[k])@.len() == self.num_cols(),
                forall|k: int, j: int|
                    0 <= k < i && 0 <= j < self.num_cols() ==> is_dot_outcome(
                        mul,
                        add,
                        zero,
                        t@[j],
                        other@[k],
                        #[trigger] arrays@[k]@[j],
                    ),
            decreases self.num_cols() - i,
        {
            let mut row: Vec<T> = Vec::with_capacity(other.rows);
            let mut j: usize = 0;
            while j < other.rows
                invariant
                    self.wf(),
                    other.wf(),
                    t.wf(),
                    t.num_rows() == self.num_cols(),
                    t.num_cols() == self.num_rows(),
                    self.num_rows() == other.num_cols(),
                    self.num_cols() == other.num_rows(),
                    forall|a: T, b: T| mul.requires((a, b)),
                    forall|a: T, b: T| add.requires((a, b)),
                    i < self.num_cols(),
                    j <= other.num_rows(),
                    row@.len() == j,
                    forall|c: int| 0 <= c < j ==> is_dot_outcome(mul, add, zero, t@[c], other@[i as int], #[trigger] row@[c]),
                decreases other.num_rows() - j,
            {
                let v = t.row(j).dotp_with(other.row(i), zero, mul, add);
                row.push(v);
                j += 1;
            }
            let arr = Array::from(row.as_slice());
            arrays.push(arr);
            i += 1;
        }
        let r = Matrix { rows: other.rows, cols: self.cols, arrays };
        assert forall|k: int| 0 <= k < r@.len() implies #[trigger] r@[k] == r.arrays@[k]@ by {}
        r
    }
}

/// Transposing twice gives the matrix back: the transpose of the transpose
/// of a well-formed matrix has its rows, its columns and its entries.
pub proof fn lemma_transpose_involution<T>(m: &Matrix<T>)
    requires
        m.wf(),
    ensures
        transposed(transposed(m@, m.num_cols()), m.num_rows()) == m@,
{
    let t = transposed(m@, m.num_cols());
    let tt = transposed(t, m.num_rows());
    assert forall|i: int| 0 <= i < m@.len() implies #[trigger] tt[i] == m@[i] by {
        assert(tt[i] =~= m@[i]);
    }
    assert(tt =~= m@);
}

/// A left fold with `add` from `zero` over `p` ends at `v` when `p[j]` is
/// `v` and every other element of `p` leaves `zero` and `v` unchanged under
/// `add`, and `add` from `zero` gives `v`.
proof fn lemma_fold_of_single<T, A: Fn(T, T) -> T>(add: A, zero: T, p: Seq<T>, j: int, v: T, trace: Seq<T>)
    requires
        0 <= j < p.len(),
        p[j] == v,
        forall|k: int, r: T| 0 <= k < p.len() && k != j && #[trigger] add.ensures((zero, p[k]), r) ==> r == zero,
        forall|k: int, r: T| 0 <= k < p.len() && k != j && #[trigger] add.ensures((v, p[k]), r) ==> r == v,
        forall|r: T| add.ensures((zero, v), r) ==> r == v,
        is_fold_trace(add, zero, p, trace),
    ensures
        trace.last() == v,
{
    assert forall|t: int| 0 <= t <= p.len() implies #[trigger] trace[t] == (if t <= j { zero } else { v }) by {
        lemma_fold_of_single_prefix(add, zero, p, j, v, trace, t);
    }
    assert(trace.last() == trace[p.len() as int]);
}

proof fn lemma_fold_of_single_prefix<T, A: Fn(T, T) -> T>(
    add: A,
    zero: T,
    p: Seq<T>,
    j: int,
    v: T,
    trace: Seq<T>,
    t: int,
)
    requires
        0 <= j < p.len(),
        0 <= t <= p.len(),
        p[j] == v,
        forall|k: int, r: T| 0 <= k < p.len() && k != j && #[trigger] add.ensures((zero, p[k]), r) ==> r == zero,
        forall|k: int, r: T| 0 <= k < p.len() && k != j && #[trigger] add.ensures((v, p[k]), r) ==> r == v,
        forall|r: T| add.ensures((zero, v), r) ==> r == v,
        is_fold_trace(add, zero, p, trace),
    ensures
        trace[t] == (if t <= j { zero } else { v }),
    decreases t,
{
    if t > 0 {
        lemma_fold_of_single_prefix(add, zero, p, j, v, trace, t - 1);
        let s = t - 1;
        assert(add.ensures((trace[s], p[s]), trace[s + 1]));
    }
}

/// The identity is a left unit of the product: the product that
/// `mult_with` computes of the `n` by `n` identity and an `n` by `n` matrix
/// `a` is `a`, for every `a` whose entries `x` are kept by `mul` with `one`
/// and by `add` to `zero`, and whose products with `zero` leave `zero` and
/// every entry of their row unchanged under `add` (with floating-point
/// numbers, the finite entries other than negative zero).
pub proof fn lemma_identity_mult<T, M: Fn(T, T) -> T, A: Fn(T, T) -> T>(
    a: Seq<Seq<T>>,
    id: Seq<Seq<T>>,
    r: Seq<Seq<T>>,
    zero: T,
    one: T,
    mul: M,
    add: A,
)
    requires
        a.len() == id.len(),
        r.len() == a.len(),
        forall|i: int| 0 <= i < a.len() ==> (#[trigger] a[i]).len() == a.len(),
        forall|i: int| 0 <= i < a.len() ==> (#[trigger] id[i]).len() == a.len(),
        forall|i: int| 0 <= i < a.len() ==> (#[trigger] r[i]).len() == a.len(),
        forall|i: int, j: int|
            0 <= i < a.len() && 0 <= j < a.len() ==> #[trigger] id[i][j] == (if i == j { one } else { zero }),
        forall|i: int, j: int|
            0 <= i < a.len() && 0 <= j < a.len() ==> is_dot_outcome(
                mul,
                add,
                zero,
                transposed(id, a.len())[j],
                a[i],
                #[trigger] r[i][j],
            ),
        forall|i: int, j: int, y: T|
            0 <= i < a.len() && 0 <= j < a.len() && #[trigger] mul.ensures((one, a[i][j]), y) ==> y == a[i][j],
        forall|i: int, j: int, y: T|
            0 <= i < a.len() && 0 <= j < a.len() && #[trigger] add.ensures((zero, a[i][j]), y) ==> y == a[i][j],
        forall|i: int, k: int, y: T, r: T|
            0 <= i < a.len() && 0 <= k < a.len() && #[trigger] mul.ensures((zero, a[i][k]), y)
                && #[trigger] add.ensures((zero, y), r) ==> r == zero,
        forall|i: int, j: int, k: int, y: T, r: T|
            0 <= i < a.len() && 0 <= j < a.len() && 0 <= k < a.len() && #[trigger] mul.ensures((zero, a[i][k]), y)
                && #[trigger] add.ensures((a[i][j], y), r) ==> r == a[i][j],
    ensures
        r == a,
{
    let n = a.len();
    assert forall|i: int, j: int| 0 <= i < n && 0 <= j < n implies #[trigger] r[i][j] == a[i][j] by {
        let col = transposed(id, n)[j];
        assert(is_dot_outcome(mul, add, zero, col, a[i], r[i][j]));
        let p = choose|p: Seq<T>|
            #![trigger folds_to(add, zero, p, r[i][j])]
            p.len() == col.len() && (forall|k: int| 0 <= k < col.len() ==> mul.ensures((col[k], a[i][k]), #[trigger] p[k]))
                && folds_to(add, zero, p, r[i][j]);
        assert forall|k: int| 0 <= k < n && k != j implies #[trigger] mul.ensures((zero, a[i][k]), p[k]) by {
            assert(col[k] == id[k][j]);
            assert(mul.ensures((col[k], a[i][k]), p[k]));
        }
        assert(col[j] == id[j][j]);
        assert(mul.ensures((col[j], a[i][j]), p[j]));
        assert(p[j] == a[i][j]);
        let trace = choose|trace: Seq<T>| #[trigger] is_fold_trace(add, zero, p, trace) && trace.last() == r[i][j];
        assert forall|k: int, q: T| 0 <= k < p.len() && k != j && #[trigger] add.ensures((zero, p[k]), q) implies q == zero by {
            assert(mul.ensures((zero, a[i][k]), p[k]));
        }
        assert forall|k: int, q: T| 0 <= k < p.len() && k != j && #[trigger] add.ensures((a[i][j], p[k]), q) implies q == a[i][j] by {
            assert(mul.ensures((zero, a[i][k]), p[k]));
        }
        lemma_fold_of_single(add, zero, p, j, a[i][j], trace);
    }
    assert forall|i: int| 0 <= i < n implies #[trigger] r[i] == a[i] by {
        assert(r[i] =~= a[i]);
    }
    assert(r =~= a);
}

} // verus!
