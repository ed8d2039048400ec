//! Building blocks of direct solvers on matrices.
use vstd::prelude::*;
use crate::linalg::matrix::{augmented_of, Matrix};
use crate::linalg::array::{folds_to, is_dot_outcome, is_fold_trace, Array};

verus! {

/// `less` behaves as a strict weak order on the results it can return: no
/// value is below itself, it is transitive, and whenever `x` is below `z`,
/// any `y` is below `z` or above `x`.
pub open spec fn is_strict_weak_order<T, F: Fn(T, T) -> bool>(less: F) -> bool {
    &&& forall|x: T| !(#[trigger] less.ensures((x, x), true))
    &&& forall|x: T, y: T, z: T|
        #![trigger less.ensures((x, y), true), less.ensures((y, z), true)]
        less.ensures((x, y), true) && less.ensures((y, z), true) ==> less.ensures((x, z), true)
    &&& forall|x: T, y: T, z: T|
        #![trigger less.ensures((x, z), true), less.ensures((x, y), false)]
        less.ensures((x, z), true) && less.ensures((x, y), false) ==> less.ensures((y, z), true)
}

/// `less` behaves as a strict weak order on the entries in column `k` of
/// rows `first..last` of `a` (for the magnitude order on floating-point
/// numbers, whenever none of them is NaN).
pub open spec fn orders_column<T, F: Fn(T, T) -> bool>(less: F, a: Seq<Seq<T>>, first: int, last: int, k: int) -> bool {
    &&& forall|i: int| first <= i < last ==> !(#[trigger] less.ensures((a[i][k], a[i][k]), true))
    &&& forall|i: int, j: int, l: int|
        #![trigger less.ensures((a[i][k], a[j][k]), true), less.ensures((a[j][k], a[l][k]), true)]
        first <= i < last && first <= j < last && first <= l < last && less.ensures((a[i][k], a[j][k]), true)
            && less.ensures((a[j][k], a[l][k]), true) ==> less.ensures((a[i][k], a[l][k]), true)
    &&& forall|i: int, j: int, l: int|
        #![trigger less.ensures((a[i][k], a[l][k]), true), less.ensures((a[i][k], a[j][k]), false)]
        first <= i < last && first <= j < last && first <= l < last && less.ensures((a[i][k], a[l][k]), true)
            && less.ensures((a[i][k], a[j][k]), false) ==> less.ensures((a[j][k], a[l][k]), true)
}

/// The row in `first..last` whose entry in column `k` is greatest under
/// `less`, the first such row where several tie: no later row is above it,
/// and, when `less` orders the entries of that column, every earlier row is
/// below it.
pub fn argmax<T: Copy, F: Fn(T, T) -> bool>(first: usize, last: usize, a: &Matrix<T>, k: usize, less: F) -> (r: usize)
    requires
        a.wf(),
        first < last,
        last <= a.num_rows(),
        k < a.num_cols(),
        forall|x: T, y: T| less.requires((x, y)),
    ensures
        first <= r < last,
        forall|i: int| r < i < last ==> less.ensures((a@[r as int][k as int], #[trigger] a@[i][k as int]), false),
        orders_column(less, a@, first as int, last as int, k as int) ==> forall|i: int|
            first <= i < r ==> less.ensures((#[trigger] a@[i][k as int], a@[r as int][k as int]), true),
{
    let mut best: usize = first;
    let mut i: usize = first + 1;
    while i < last
        invariant
            a.wf(),
            last <= a.num_rows(),
            k < a.num_cols(),
            forall|x: T, y: T| less.requires((x, y)),
            first <= best < i <= last,
            forall|j: int| best < j < i ==> less.ensures((a@[best as int][k as int], #[trigger] a@[j][k as int]), false),
            orders_column(less, a@, first as int, last as int, k as int) ==> forall|j: int|
                first <= j < best ==> less.ensures((#[trigger] a@[j][k as int], a@[best as int][k as int]), true),
        decreases last - i,
    {
        let above = less(a.get(best, k), a.get(i, k));
        if above {
            proof {
                if orders_column(less, a@, first as int, last as int, k as int) {
                    let z = a@[i as int][k as int];
                    let xb = a@[best as int][k as int];
                    assert forall|j: int| first <= j < i implies less.ensures((#[trigger] a@[j][k as int], z), true) by {
                        if j < best {
                            assert(less.ensures((a@[j][k as int], xb), true));
                        } else if j > best {
                            assert(less.ensures((xb, a@[j][k as int]), false));
                        }
                    }
                }
            }
            best = i;
        }
        i += 1;
    }
    best
}

/// The scalar operations that elimination and substitution are built from,
/// supplied by the caller: an additive `zero`, the order `less` by which a
/// pivot is chosen (for real numbers, by magnitude), the test `is_zero` of
/// a degenerate pivot, and the four arithmetic operations.
#[verifier::reject_recursive_types(T)]
pub struct Arithmetic<T, L, Z, A, S, M, D>
where
    L: Fn(T, T) -> bool + Copy,
    Z: Fn(T) -> bool + Copy,
    A: Fn(T, T) -> T + Copy,
    S: Fn(T, T) -> T + Copy,
    M: Fn(T, T) -> T + Copy,
    D: Fn(T, T) -> T + Copy,
 {
    pub zero: T,
    pub less: L,
    pub is_zero: Z,
    pub add: A,
    pub sub: S,
    pub mul: M,
    pub div: D,
}

impl<T, L, Z, A, S, M, D> Arithmetic<T, L, Z, A, S, M, D>
where
    L: Fn(T, T) -> bool + Copy,
    Z: Fn(T) -> bool + Copy,
    A: Fn(T, T) -> T + Copy,
    S: Fn(T, T) -> T + Copy,
    M: Fn(T, T) -> T + Copy,
    D: Fn(T, T) -> T + Copy,
 {
    /// Every operation accepts every argument.
    pub open spec fn total(&self) -> bool {
        &&& forall|x: T, y: T| self.less.requires((x, y))
        &&& forall|x: T| self.is_zero.requires((x,))
        &&& forall|x: T, y: T| self.add.requires((x, y))
        &&& forall|x: T, y: T| self.sub.requires((x, y))
        &&& forall|x: T, y: T| self.mul.requires((x, y))
        &&& forall|x: T, y: T| self.div.requires((x, y))
    }

    /// `out` is `row` reduced against `pivot_row` at column `k` with factor
    /// `f`: `f` is `row[k] / pivot_row[k]`, the entries left of `k` stay,
    /// entry `k` becomes zero, and each entry `c` right of `k` becomes
    /// `row[c] - pivot_row[c] * f`.
    pub open spec fn is_reduced_row(&self, row: Seq<T>, pivot_row: Seq<T>, k: int, f: T, out: Seq<T>) -> bool {
        &&& self.div.ensures((row[k], pivot_row[k]), f)
        &&& out.len() == row.len()
        &&& forall|c: int| 0 <= c < k ==> #[trigger] out[c] == row[c]
        &&& out[k] == self.zero
        &&& forall|c: int| k < c < row.len() ==> self.is_reduced_entry(row[c], pivot_row[c], f, #[trigger] out[c])
    }

    /// `out` is `x - pivot_x * f`, as `mul` and `sub` compute it.
    pub open spec fn is_reduced_entry(&self, x: T, pivot_x: T, f: T, out: T) -> bool {
        exists|p: T| self.mul.ensures((pivot_x, f), p) && self.sub.ensures((x, p), out)
    }

    /// `b` is `a` with column `k` cleared below row `h`, each row below `h`
    /// reduced against row `h`.
    pub open spec fn is_cleared_below(&self, a: Seq<Seq<T>>, h: int, k: int, b: Seq<Seq<T>>) -> bool {
        &&& b.len() == a.len()
        &&& forall|i: int| 0 <= i <= h ==> #[trigger] b[i] == a[i]
        &&& forall|i: int| h < i < a.len() ==> self.is_reduced(a[i], a[h], k, #[trigger] b[i])
    }

    /// `out` is `row` reduced against `pivot_row` at column `k` with some
    /// factor that `div` may return.
    pub open spec fn is_reduced(&self, row: Seq<T>, pivot_row: Seq<T>, k: int, out: Seq<T>) -> bool {
        exists|f: T| self.is_reduced_row(row, pivot_row, k, f, out)
    }

    /// Entry `i` of `x` solves row `i` of the echelon matrix `r`, whose last
    /// column holds the right-hand side: it is `(r[i][n] - kernel) / r[i][i]`,
    /// where `kernel` is the dot product of the entries of row `i` right of
    /// the diagonal with the entries of `x` after `i`, and `n` is the length
    /// of `x`.
    pub open spec fn solves_row(&self, r: Seq<Seq<T>>, x: Seq<T>, i: int) -> bool {
        let n = x.len() as int;
        exists|kernel: T, d: T|
            #![trigger self.sub.ensures((r[i][n], kernel), d)]
            is_dot_outcome(self.mul, self.add, self.zero, r[i].subrange(i + 1, n), x.subrange(i + 1, n), kernel)
                && self.sub.ensures((r[i][n], kernel), d) && self.div.ensures((d, r[i][i]), x[i])
    }

    /// `x` is the result of back substitution on `r`: one entry per row of
    /// `r`, each solving its row.
    pub open spec fn is_back_substitution(&self, r: Seq<Seq<T>>, x: Seq<T>) -> bool {
        &&& x.len() == r.len()
        &&& forall|i: int| 0 <= i < x.len() ==> #[trigger] self.solves_row(r, x, i)
    }

    /// `piv` lists the pivot columns of the first `piv.len()` rows of `a`,
    /// left to right: each is below `k`, each pivot entry is one that
    /// `is_zero` may reject, and every entry below a pivot is `zero`.
    pub open spec fn has_pivots(&self, a: Seq<Seq<T>>, piv: Seq<int>, k: int) -> bool {
        &&& piv.len() <= a.len()
        &&& forall|p: int| 0 <= p < piv.len() ==> 0 <= #[trigger] piv[p] < k
        &&& forall|p: int, q: int| 0 <= p < q < piv.len() ==> #[trigger] piv[p] < #[trigger] piv[q]
        &&& forall|p: int| 0 <= p < piv.len() ==> self.is_zero.ensures((#[trigger] a[p][piv[p]],), false)
        &&& forall|p: int, i: int| 0 <= p < piv.len() && p < i < a.len() ==> #[trigger] a[i][piv[p]] == self.zero
    }

    /// The pivot order and the zero test agree as magnitude order and the
    /// test for zero do on numbers: `less` is a strict weak order, `zero`
    /// passes `is_zero`, nothing is below a value that passes `is_zero`, and
    /// a value that is not above one that passes `is_zero` passes it too.
    pub open spec fn is_pivot_order(&self) -> bool {
        &&& is_strict_weak_order(self.less)
        &&& self.is_zero.ensures((self.zero,), true)
        &&& forall|x: T, y: T|
            #![trigger self.is_zero.ensures((x,), true), self.less.ensures((y, x), true)]
            self.is_zero.ensures((x,), true) ==> !self.less.ensures((y, x), true)
        &&& forall|x: T, y: T|
            #![trigger self.is_zero.ensures((x,), true), self.less.ensures((x, y), false)]
            self.is_zero.ensures((x,), true) && self.less.ensures((x, y), false) ==> self.is_zero.ensures((y,), true)
    }

    /// The `cols` columns of `a` are in row echelon form with pivot columns
    /// `piv`: besides `has_pivots`, every entry left of a pivot passes
    /// `is_zero`, and so does every entry of the rows after the last pivot
    /// row.
    pub open spec fn is_row_echelon(&self, a: Seq<Seq<T>>, piv: Seq<int>, cols: int) -> bool {
        &&& self.has_pivots(a, piv, cols)
        &&& forall|p: int, c: int|
            0 <= p < piv.len() && 0 <= c < piv[p] ==> self.is_zero.ensures((#[trigger] a[p][c],), true)
        &&& forall|i: int, c: int|
            piv.len() <= i < a.len() && 0 <= c < cols ==> self.is_zero.ensures((#[trigger] a[i][c],), true)
    }

    /// What forward elimination has cleared when the pivot is at row `h`,
    /// column `k`: the entries left of each pivot found so far, and the
    /// entries left of column `k` in the rows from `h` on.
    spec fn is_cleared_so_far(&self, a: Seq<Seq<T>>, piv: Seq<int>, h: int, k: int) -> bool {
        &&& forall|p: int, c: int|
            0 <= p < h && 0 <= c < piv[p] ==> self.is_zero.ensures((#[trigger] a[p][c],), true)
        &&& forall|i: int, c: int|
            h <= i < a.len() && 0 <= c < k ==> self.is_zero.ensures((#[trigger] a[i][c],), true)
    }

    /// One step of forward elimination, from the matrix `a` with pivot row
    /// `h` and pivot column `k` to `b`, `h2`, `k2`: a pivot row `im` is
    /// chosen as `argmax` may choose it; if its entry is zero the column is
    /// skipped, else it is swapped into row `h` and the column is cleared
    /// below it.
    pub open spec fn is_elimination_step(
        &self,
        a: Seq<Seq<T>>,
        h: int,
        k: int,
        b: Seq<Seq<T>>,
        h2: int,
        k2: int,
    ) -> bool {
        exists|im: int, z: bool|
            #![trigger is_pivot_choice(self.less, a, h, k, im), self.is_zero.ensures((a[im][k],), z)]
            is_pivot_choice(self.less, a, h, k, im) && self.is_zero.ensures((a[im][k],), z) && (if z {
                b == a && h2 == h && k2 == k + 1
            } else {
                self.is_cleared_below(swapped(a, h, im), h, k, b) && h2 == h + 1 && k2 == k + 1
            })
    }

    /// `trace` runs forward elimination on the `rows` by `cols` matrix
    /// `start` to its end: it starts at pivot `(0, 0)`, each entry follows
    /// from the one before by an elimination step taken while the pivot is
    /// inside the matrix, and the last has its pivot row or column past the
    /// end.
    pub open spec fn is_elimination_trace(
        &self,
        start: Seq<Seq<T>>,
        rows: int,
        cols: int,
        trace: Seq<(Seq<Seq<T>>, int, int)>,
    ) -> bool {
        &&& trace.len() >= 1
        &&& trace[0] == (start, 0int, 0int)
        &&& forall|s: int|
            0 <= s < trace.len() - 1 ==> {
                &&& (#[trigger] trace[s]).1 < rows
                &&& trace[s].2 < cols
                &&& self.is_elimination_step(trace[s].0, trace[s].1, trace[s].2, trace[s + 1].0, trace[s + 1].1, trace[s + 1].2)
            }
        &&& trace.last().1 == rows || trace.last().2 == cols
    }
}

/// `a` with rows `i` and `j` exchanged.
pub open spec fn swapped<T>(a: Seq<Seq<T>>, i: int, j: int) -> Seq<Seq<T>> {
    a.update(i, a[j]).update(j, a[i])
}

/// `im` is a row that `argmax` may return over rows `h..` of `a` in column
/// `k` under `less`.
pub open spec fn is_pivot_choice<T, L: Fn(T, T) -> bool>(less: L, a: Seq<Seq<T>>, h: int, k: int, im: int) -> bool {
    &&& h <= im < a.len()
    &&& forall|i: int| im < i < a.len() ==> less.ensures((a[im][k], #[trigger] a[i][k]), false)
    &&& orders_column(less, a, h, a.len() as int, k) ==> forall|i: int|
        h <= i < im ==> less.ensures((#[trigger] a[i][k], a[im][k]), true)
}

/// Brings the matrix `augmented` to row echelon form by Gaussian
/// elimination with partial pivoting: the result is the last matrix of an
/// elimination trace that starts at `augmented`, and it has pivot columns,
/// increasing from row to row, with only `zero` below each pivot; when the
/// pivot order and the zero test agree, it is in row echelon form.
pub fn row_echelon_form<T: Copy, L, Z, A, S, M, D>(
    augmented: Matrix<T>,
    ops: &Arithmetic<T, L, Z, A, S, M, D>,
) -> (r: Matrix<T>)
    where
        L: Fn(T, T) -> bool + Copy,
        Z: Fn(T) -> bool + Copy,
        A: Fn(T, T) -> T + Copy,
        S: Fn(T, T) -> T + Copy,
        M: Fn(T, T) -> T + Copy,
        D: Fn(T, T) -> T + Copy,
    requires
        augmented.wf(),
        ops.total(),
    ensures
        r.wf(),
        r.num_rows() == augmented.num_rows(),
        r.num_cols() == augmented.num_cols(),
        exists|trace: Seq<(Seq<Seq<T>>, int, int)>|
            #[trigger] ops.is_elimination_trace(augmented@, augmented.num_rows() as int, augmented.num_cols() as int, trace)
                && trace.last().0 == r@,
        exists|piv: Seq<int>|
            #[trigger] ops.has_pivots(r@, piv, r.num_cols() as int)
                && (ops.is_pivot_order() ==> ops.is_row_echelon(r@, piv, r.num_cols() as int)),
{
    let (m, n) = augmented.dimensions();
    let mut a = augmented;
    let mut h: usize = 0;
    let mut k: usize = 0;
    let ghost mut trace: Seq<(Seq<Seq<T>>, int, int)> = seq![(a@, 0int, 0int)];
    while h < m && k < n
        invariant
            a.wf(),
            ops.total(),
            a.num_rows() == m,
            a.num_cols() == n,
            m == augmented.num_rows(),
            n == augmented.num_cols(),
            h <= m,
            k <= n,
            trace.len() >= 1,
            trace[0] == (augmented@, 0int, 0int),
            trace.last() == (a@, h as int, k as int),
            forall|s: int|
                0 <= s < trace.len() - 1 ==> {
                    &&& (#[trigger] trace[s]).1 < m
                    &&& trace[s].2 < n
                    &&& ops.is_elimination_step(trace[s].0, trace[s].1, trace[s].2, trace[s + 1].0, trace[s + 1].1, trace[s + 1].2)
                },
        decreases n - k,
    {
        let ghost before = a@;
        let ghost h0 = h as int;
        let ghost k0 = k as int;
        let i_max = argmax(h, m, &a, k, ops.less);
        let z = (ops.is_zero)(a.get(i_max, k));
        if z {
            k += 1;
        } else {
            a.swap_rows(h, i_max);
            let ghost pivoted = a@;
            assert(pivoted == swapped(before, h as int, i_max as int));
            let mut i: usize = h + 1;
            while i < m
                invariant
                    a.wf(),
                    ops.total(),
                    a.num_rows() == m,
                    a.num_cols() == n,
                    h < m,
                    k < n,
                    h + 1 <= i <= m,
                    pivoted.len() == m,
                    forall|q: int| 0 <= q < m ==> (#[trigger] pivoted[q]).len() == n,
                    a@.len() == m,
                    forall|q: int| 0 <= q <= h ==> #[trigger] a@[q] == pivoted[q],
                    forall|q: int| i <= q < m ==> #[trigger] a@[q] == pivoted[q],
                    forall|q: int| h < q < i ==> ops.is_reduced(pivoted[q], pivoted[h as int], k as int, #[trigger] a@[q]),
                decreases m - i,
            {
                let ghost at_row = a@;
                let f = (ops.div)(a.get(i, k), a.get(h, k));
                a.set(ops.zero, i, k);
                let mut j: usize = k + 1;
                while j < n
                    invariant
                        a.wf(),
                        ops.total(),
                        a.num_rows() == m,
                        a.num_cols() == n,
                        h < i < m,
                        k < j <= n,
                        pivoted.len() == m,
                        forall|q: int| 0 <= q < m ==> (#[trigger] pivoted[q]).len() == n,
                        a@.len() == m,
                        at_row.len() == m,
                        at_row[i as int] == pivoted[i as int],
                        at_row[h as int] == pivoted[h as int],
                        forall|q: int| 0 <= q < m && q != i ==> #[trigger] a@[q] == at_row[q],
                        ops.div.ensures((pivoted[i as int][k as int], pivoted[h as int][k as int]), f),
                        forall|c: int| 0 <= c < k ==> #[trigger] a@[i as int][c] == pivoted[i as int][c],
                        a@[i as int][k as int] == ops.zero,
                        forall|c: int| j <= c < n ==> #[trigger] a@[i as int][c] == pivoted[i as int][c],
                        forall|c: int|
                            k < c < j ==> ops.is_reduced_entry(pivoted[i as int][c], pivoted[h as int][c], f, #[trigger] a@[i as int][c]),
                    decreases n - j,
                {
                    let ghost before_set = a@;
                    let hj = a.get(h, j);
                    let ij = a.get(i, j);
                    let p = (ops.mul)(hj, f);
                    let v = (ops.sub)(ij, p);
                    a.set(v, i, j);
                    proof {
                        assert(hj == pivoted[h as int][j as int]);
                        assert(ij == pivoted[i as int][j as int]);
                        assert forall|c: int|
                            k < c < j + 1 implies ops.is_reduced_entry(pivoted[i as int][c], pivoted[h as int][c], f, #[trigger] a@[i as int][c]) by {
                            if c < j {
                                assert(a@[i as int][c] == before_set[i as int][c]);
                            } else {
                                assert(ops.mul.ensures((pivoted[h as int][c], f), p));
                            }
                        }
                    }
                    j += 1;
                }
                proof {
                    assert(ops.is_reduced_row(pivoted[i as int], pivoted[h as int], k as int, f, a@[i as int]));
                    assert forall|q: int| h < q < i + 1 implies ops.is_reduced(pivoted[q], pivoted[h as int], k as int, #[trigger] a@[q]) by {
                        if q < i {
                            assert(a@[q] == at_row[q]);
                        } else {
                            assert(ops.is_reduced_row(pivoted[q], pivoted[h as int], k as int, f, a@[q]));
                        }
                    }
                }
                i += 1;
            }
            proof {
                assert(ops.is_cleared_below(pivoted, h as int, k as int, a@));
            }
            h += 1;
            k += 1;
        }
        proof {
            let prev = trace;
            trace = trace.push((a@, h as int, k as int));
            assert(is_pivot_choice(ops.less, before, h0, k0, i_max as int));
            assert(ops.is_elimination_step(before, h0, k0, a@, h as int, k as int));
            assert forall|s: int| 0 <= s < trace.len() - 1 implies {
                &&& (#[trigger] trace[s]).1 < m
                &&& trace[s].2 < n
                &&& ops.is_elimination_step(trace[s].0, trace[s].1, trace[s].2, trace[s + 1].0, trace[s + 1].1, trace[s + 1].2)
            } by {
                if s < prev.len() - 1 {
                    assert(trace[s] == prev[s]);
                    assert(trace[s + 1] == prev[s + 1]);
                }
            }
        }
    }
    proof {
        assert(ops.is_elimination_trace(augmented@, m as int, n as int, trace));
        lemma_elimination_gives_echelon(ops, augmented@, m as int, n as int, trace);
        let piv = choose|piv: Seq<int>|
            #![trigger ops.has_pivots(trace.last().0, piv, trace.last().2)]
            piv.len() == trace.last().1 && ops.has_pivots(trace.last().0, piv, trace.last().2)
                && ops.has_pivots(trace.last().0, piv, n as int)
                && (ops.is_pivot_order() ==> ops.is_row_echelon(trace.last().0, piv, n as int));
        assert(ops.has_pivots(a@, piv, n as int));
    }
    a
}

/// Solves the `n` by `n + 1` echelon matrix `reduced`, whose last column is
/// the right-hand side, from the last row up: each entry is found from
/// those after it.
pub fn back_substitution<T: Copy, L, Z, A, S, M, D>(
    reduced: &Matrix<T>,
    ops: &Arithmetic<T, L, Z, A, S, M, D>,
) -> (x: Array<T>)
    where
        L: Fn(T, T) -> bool + Copy,
        Z: Fn(T) -> bool + Copy,
        A: Fn(T, T) -> T + Copy,
        S: Fn(T, T) -> T + Copy,
        M: Fn(T, T) -> T + Copy,
        D: Fn(T, T) -> T + Copy,
    requires
        reduced.wf(),
        reduced.num_cols() == reduced.num_rows() + 1,
        ops.total(),
    ensures
        ops.is_back_substitution(reduced@, x@),
{
    let (rows, cols) = reduced.dimensions();
    let mut x = Array::of(ops.zero, rows);
    let mut i: usize = rows;
    while i > 0
        invariant
            reduced.wf(),
            reduced.num_rows() == rows,
            reduced.num_cols() == cols,
            cols == rows + 1,
            ops.total(),
            i <= rows,
            x@.len() == rows,
            forall|q: int| i <= q < rows ==> #[trigger] ops.solves_row(reduced@, x@, q),
        decreases i,
    {
        i -= 1;
        let ghost row = reduced@[i as int];
        let kernel = if i + 1 < rows {
            let tail = reduced.splice(i, i + 1, rows);
            let known = x.splice(i + 1, rows);
            tail.dotp_with(&known, ops.zero, ops.mul, ops.add)
        } else {
            proof {
                let e = Seq::<T>::empty();
                assert(is_fold_trace(ops.add, ops.zero, e, seq![ops.zero]));
                assert(folds_to(ops.add, ops.zero, e, ops.zero));
                assert(row.subrange(i + 1, rows as int) =~= e);
                assert(x@.subrange(i + 1, rows as int) =~= e);
            }
            ops.zero
        };
        let d = (ops.sub)(reduced.get(i, rows), kernel);
        let xi = (ops.div)(d, reduced.get(i, i));
        let ghost before = x@;
        x.set(xi, i);
        proof {
            assert(x@.subrange(i + 1, rows as int) =~= before.subrange(i + 1, rows as int));
            assert(ops.solves_row(reduced@, x@, i as int));
            assert forall|q: int| i <= q < rows implies #[trigger] ops.solves_row(reduced@, x@, q) by {
                if q > i {
                    assert(x@.subrange(q + 1, rows as int) =~= before.subrange(q + 1, rows as int));
                    assert(ops.solves_row(reduced@, before, q));
                    assert(x@[q] == before[q]);
                }
            }
        }
    }
    x
}

/// Solves `a x = b` for the square matrix `a` by Gaussian elimination with
/// partial pivoting: `b` is appended to `a` as a last column, the result is
/// brought to row echelon form (when the pivot order and the zero test
/// agree), and back substitution gives `x`.
pub fn gauss_elimination<T: Copy, L, Z, A, S, M, D>(
    a: Matrix<T>,
    b: Array<T>,
    ops: &Arithmetic<T, L, Z, A, S, M, D>,
) -> (x: Array<T>)
    where
        L: Fn(T, T) -> bool + Copy,
        Z: Fn(T) -> bool + Copy,
        A: Fn(T, T) -> T + Copy,
        S: Fn(T, T) -> T + Copy,
        M: Fn(T, T) -> T + Copy,
        D: Fn(T, T) -> T + Copy,
    requires
        a.wf(),
        a.num_rows() == a.num_cols(),
        b@.len() == a.num_rows(),
        a.num_cols() < usize::MAX,
        ops.total(),
    ensures
        exists|trace: Seq<(Seq<Seq<T>>, int, int)>|
            #[trigger] ops.is_elimination_trace(augmented_of(a@, b@), a.num_rows() as int, a.num_cols() + 1int, trace)
                && ops.is_back_substitution(trace.last().0, x@)
                && (ops.is_pivot_order() ==> exists|piv: Seq<int>|
                    #[trigger] ops.is_row_echelon(trace.last().0, piv, a.num_cols() + 1int)),
{
    let augmented = a.augment(&b);
    let reduced = row_echelon_form(augmented, ops);
    let x = back_substitution(&reduced, ops);
    proof {
        let n = reduced.num_cols() as int;
        let piv = choose|piv: Seq<int>|
            #[trigger] ops.has_pivots(reduced@, piv, n)
                && (ops.is_pivot_order() ==> ops.is_row_echelon(reduced@, piv, n));
        assert(ops.has_pivots(reduced@, piv, n));
        if ops.is_pivot_order() {
            assert(ops.is_row_echelon(reduced@, piv, n));
        }
    }
    x
}

/// One elimination step keeps the pivots found so far, and a step that
/// advances the pivot row adds the column it cleared.
proof fn lemma_step_keeps_pivots<T, L, Z, A, S, M, D>(
    ops: &Arithmetic<T, L, Z, A, S, M, D>,
    a: Seq<Seq<T>>,
    h: int,
    k: int,
    piv: Seq<int>,
    b: Seq<Seq<T>>,
    h2: int,
    k2: int,
)
    where
        L: Fn(T, T) -> bool + Copy,
        Z: Fn(T) -> bool + Copy,
        A: Fn(T, T) -> T + Copy,
        S: Fn(T, T) -> T + Copy,
        M: Fn(T, T) -> T + Copy,
        D: Fn(T, T) -> T + Copy,
    requires
        ops.has_pivots(a, piv, k),
        piv.len() == h,
        0 <= k,
        ops.is_elimination_step(a, h, k, b, h2, k2),
    ensures
        ops.has_pivots(b, if h2 == h { piv } else { piv.push(k) }, k2),
        h2 == h || h2 == h + 1,
        k2 == k + 1,
        b.len() == a.len(),
        ops.is_pivot_order() && ops.is_cleared_so_far(a, piv, h, k)
            ==> ops.is_cleared_so_far(b, if h2 == h { piv } else { piv.push(k) }, h2, k2),
{
    let (im, z) = choose|im: int, z: bool|
        #![trigger is_pivot_choice(ops.less, a, h, k, im), ops.is_zero.ensures((a[im][k],), z)]
        is_pivot_choice(ops.less, a, h, k, im) && ops.is_zero.ensures((a[im][k],), z) && (if z {
            b == a && h2 == h && k2 == k + 1
        } else {
            ops.is_cleared_below(swapped(a, h, im), h, k, b) && h2 == h + 1 && k2 == k + 1
        });
    if z {
        if ops.is_pivot_order() && ops.is_cleared_so_far(a, piv, h, k) {
            let n = a.len() as int;
            assert(orders_column(ops.less, a, h, n, k));
            assert forall|i: int, c: int| h <= i < n && 0 <= c < k + 1 implies ops.is_zero.ensures((#[trigger] a[i][c],), true) by {
                if c == k {
                    if i > im {
                        assert(ops.less.ensures((a[im][k], a[i][k]), false));
                    } else if i < im {
                        assert(ops.less.ensures((a[i][k], a[im][k]), true));
                    }
                }
            }
        }
    } else {
        let sw = swapped(a, h, im);
        let np = piv.push(k);
        assert(h < a.len());
        assert forall|p: int| 0 <= p < np.len() implies ops.is_zero.ensures((#[trigger] b[p][np[p]],), false) by {
            assert(b[p] == sw[p]);
            if p < h {
                assert(sw[p] == a[p]);
                assert(np[p] == piv[p]);
            } else {
                assert(sw[p] == a[im]);
            }
        }
        assert forall|p: int, i: int| 0 <= p < np.len() && p < i < b.len() implies #[trigger] b[i][np[p]] == ops.zero by {
            if i > h {
                assert(ops.is_reduced(sw[i], sw[h], k, b[i]));
                let f = choose|f: T| ops.is_reduced_row(sw[i], sw[h], k, f, b[i]);
                if p < h {
                    assert(np[p] == piv[p]);
                    assert(b[i][piv[p]] == sw[i][piv[p]]);
                    if i == im {
                        assert(sw[i] == a[h]);
                    } else {
                        assert(sw[i] == a[i]);
                    }
                }
            } else {
                assert(b[i] == sw[i]);
                assert(p < h);
                assert(np[p] == piv[p]);
                if i == h {
                    assert(sw[i] == a[im]);
                } else {
                    assert(sw[i] == a[i]);
                }
            }
        }
        assert forall|p: int, q: int| 0 <= p < q < np.len() implies #[trigger] np[p] < #[trigger] np[q] by {
            if q == h {
                assert(np[p] == piv[p]);
            } else {
                assert(np[p] == piv[p] && np[q] == piv[q]);
            }
        }
        assert(k2 == k + 1);
        assert forall|p: int| 0 <= p < np.len() implies 0 <= #[trigger] np[p] < k2 by {
            if p < h {
                assert(np[p] == piv[p]);
            } else {
                assert(np[p] == k);
            }
        }
        if ops.is_pivot_order() && ops.is_cleared_so_far(a, piv, h, k) {
            assert forall|p: int, c: int| 0 <= p < h + 1 && 0 <= c < np[p] implies ops.is_zero.ensures((#[trigger] b[p][c],), true) by {
                assert(b[p] == sw[p]);
                if p < h {
                    assert(sw[p] == a[p]);
                    assert(np[p] == piv[p]);
                } else {
                    assert(sw[p] == a[im]);
                    assert(np[p] == k);
                    assert(ops.is_zero.ensures((a[im][c],), true));
                }
            }
            assert forall|i: int, c: int| h + 1 <= i < b.len() && 0 <= c < k + 1 implies ops.is_zero.ensures((#[trigger] b[i][c],), true) by {
                assert(ops.is_reduced(sw[i], sw[h], k, b[i]));
                let f = choose|f: T| ops.is_reduced_row(sw[i], sw[h], k, f, b[i]);
                if c < k {
                    assert(b[i][c] == sw[i][c]);
                    if i == im {
                        assert(sw[i] == a[h]);
                        assert(ops.is_zero.ensures((a[h][c],), true));
                    } else {
                        assert(sw[i] == a[i]);
                        assert(ops.is_zero.ensures((a[i][c],), true));
                    }
                } else {
                    assert(b[i][k] == ops.zero);
                }
            }
        }
    }
}

/// Forward elimination leaves a row echelon form: the matrix at the end of
/// an elimination trace of a `rows` by `cols` matrix has a pivot column for
/// each of its first `h` rows, where `h` is the final pivot row, strictly
/// increasing from row to row, with a pivot entry that `is_zero` may reject
/// and only `zero` below it; and when the pivot order and the zero test
/// agree, everything left of a pivot and every row after the last pivot
/// row passes `is_zero`.
pub proof fn lemma_elimination_gives_echelon<T, L, Z, A, S, M, D>(
    ops: &Arithmetic<T, L, Z, A, S, M, D>,
    start: Seq<Seq<T>>,
    rows: int,
    cols: int,
    trace: Seq<(Seq<Seq<T>>, int, int)>,
)
    where
        L: Fn(T, T) -> bool + Copy,
        Z: Fn(T) -> bool + Copy,
        A: Fn(T, T) -> T + Copy,
        S: Fn(T, T) -> T + Copy,
        M: Fn(T, T) -> T + Copy,
        D: Fn(T, T) -> T + Copy,
    requires
        ops.is_elimination_trace(start, rows, cols, trace),
        start.len() == rows,
        0 <= cols,
    ensures
        exists|piv: Seq<int>|
            #![trigger ops.has_pivots(trace.last().0, piv, trace.last().2)]
            piv.len() == trace.last().1 && ops.has_pivots(trace.last().0, piv, trace.last().2)
                && ops.has_pivots(trace.last().0, piv, cols)
                && (ops.is_pivot_order() ==> ops.is_row_echelon(trace.last().0, piv, cols)),
{
    let last = trace.len() - 1;
    let piv = lemma_pivots_up_to(ops, start, rows, cols, trace, last);
    let (a, h, k) = trace.last();
    assert(trace[last] == trace.last());
    if last == 0 {
        assert(h == 0 && k == 0);
    }
    assert(ops.has_pivots(a, piv, cols));
    if ops.is_pivot_order() {
        assert(ops.is_cleared_so_far(a, piv, h, k));
        assert forall|i: int, c: int| piv.len() <= i < a.len() && 0 <= c < cols implies ops.is_zero.ensures((#[trigger] a[i][c],), true) by {
            assert(h < rows);
            assert(k == cols);
        }
        assert(ops.is_row_echelon(a, piv, cols));
    }
}

proof fn lemma_pivots_up_to<T, L, Z, A, S, M, D>(
    ops: &Arithmetic<T, L, Z, A, S, M, D>,
    start: Seq<Seq<T>>,
    rows: int,
    cols: int,
    trace: Seq<(Seq<Seq<T>>, int, int)>,
    s: int,
) -> (piv: Seq<int>)
    where
        L: Fn(T, T) -> bool + Copy,
        Z: Fn(T) -> bool + Copy,
        A: Fn(T, T) -> T + Copy,
        S: Fn(T, T) -> T + Copy,
        M: Fn(T, T) -> T + Copy,
        D: Fn(T, T) -> T + Copy,
    requires
        ops.is_elimination_trace(start, rows, cols, trace),
        0 <= s < trace.len(),
    ensures
        piv.len() == trace[s].1,
        0 <= trace[s].2,
        trace[s].0.len() == start.len(),
        trace[s].2 <= cols || s == 0,
        ops.has_pivots(trace[s].0, piv, trace[s].2),
        ops.is_pivot_order() ==> ops.is_cleared_so_far(trace[s].0, piv, trace[s].1, trace[s].2),
    decreases s,
{
    if s == 0 {
        let piv = Seq::<int>::empty();
        assert(trace[0] == (start, 0int, 0int));
        piv
    } else {
        let prev = lemma_pivots_up_to(ops, start, rows, cols, trace, s - 1);
        let t = s - 1;
        assert(ops.is_elimination_step(trace[t].0, trace[t].1, trace[t].2, trace[t + 1].0, trace[t + 1].1, trace[t + 1].2));
        lemma_step_keeps_pivots(ops, trace[t].0, trace[t].1, trace[t].2, prev, trace[t + 1].0, trace[t + 1].1, trace[t + 1].2);
        if trace[t + 1].1 == trace[t].1 {
            prev
        } else {
            prev.push(trace[t].2)
        }
    }
}

} // verus!
