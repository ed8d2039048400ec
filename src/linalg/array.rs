//! A fixed-length, exclusively owned sequence of values.
use vstd::prelude::*;

verus! {

/// `trace` records a left fold of `f` over `s` from `init`: it starts at
/// `init` and each next entry is a result of `f` on the previous entry and
/// the next element of `s`.
pub open spec fn is_fold_trace<T, A, F: Fn(A, T) -> A>(f: F, init: A, s: Seq<T>, trace: Seq<A>) -> bool {
    &&& trace.len() == s.len() + 1
    &&& trace[0] == init
    &&& forall|i: int| 0 <= i < s.len() ==> f.ensures((trace[i], s[i]), #[trigger] trace[i + 1])
}

/// `r` is an outcome of folding `f` over `s` from the left, starting at `init`.
pub open spec fn folds_to<T, A, F: Fn(A, T) -> A>(f: F, init: A, s: Seq<T>, r: A) -> bool {
    exists|trace: Seq<A>| #[trigger] is_fold_trace(f, init, s, trace) && trace.last() == r
}

/// `r` is an outcome of the dot product of `x` and `y` built from `mul` and
/// `add`: the pairwise products, each a result of `mul`, folded with `add`
/// from `zero`.
pub open spec fn is_dot_outcome<T, M: Fn(T, T) -> T, A: Fn(T, T) -> T>(
    mul: M,
    add: A,
    zero: T,
    x: Seq<T>,
    y: Seq<T>,
    r: T,
) -> bool {
    exists|p: Seq<T>|
        #![trigger folds_to(add, zero, p, r)]
        p.len() == x.len() && (forall|k: int| 0 <= k < x.len() ==> mul.ensures((x[k], y[k]), #[trigger] p[k]))
            && folds_to(add, zero, p, r)
}

/// A fixed-length array. Its length is set when it is built; every
/// transformation returns a freshly allocated array.
#[derive(Debug, Clone, PartialEq)]
pub struct Array<T> {
    elements: Vec<T>,
}

impl<T> View for Array<T> {
    type V = Seq<T>;

    closed spec fn view(&self) -> Seq<T> {
        self.elements@
    }
}

impl<T: Copy> Array<T> {
    /// An array with no elements.
    pub fn new() -> (r: Array<T>)
        ensures
            r@ == Seq::<T>::empty(),
    {
        Array { elements: Vec::new() }
    }

    /// A fresh array holding a copy of `values`.
    pub fn from(values: &[T]) -> (r: Array<T>)
        ensures
            r@ == values@,
    {
        let mut elements: Vec<T> = Vec::with_capacity(values.len());
        let mut i: usize = 0;
        while i < values.len()
            invariant
                i <= values@.len(),
                elements@ == values@.subrange(0, i as int),
            decreases values@.len() - i,
        {
            elements.push(values[i]);
            i += 1;
        }
        assert(elements@ == values@);
        Array { elements }
    }

    /// An array of `len` elements, each equal to `val`.
    pub fn of(val: T, len: usize) -> (r: Array<T>)
        ensures
            r@ == Seq::new(len as nat, |_i: int| val),
    {
        let mut elements: Vec<T> = Vec::with_capacity(len);
        let mut i: usize = 0;
        while i < len
            invariant
                i <= len,
                elements@ == Seq::new(i as nat, |_i: int| val),
            decreases len - i,
        {
            elements.push(val);
            i += 1;
        }
        Array { elements }
    }

    /// The number of elements.
    pub fn len(&self) -> (r: usize)
        ensures
            r == self@.len(),
    {
        self.elements.len()
    }

    /// The element at `index`.
    pub fn get(&self, index: usize) -> (r: T)
        requires
            index < self@.len(),
        ensures
            r == self@[index as int],
    {
        self.elements[index]
    }

    /// Overwrites the element at `index` with `val`.
    pub fn set(&mut self, val: T, index: usize)
        requires
            index < old(self)@.len(),
        ensures
            final(self)@ == old(self)@.update(index as int, val),
    {
        self.elements.set(index, val);
    }

    /// The elements, as a slice.
    pub fn as_slice(&self) -> (r: &[T])
        ensures
            r@ == self@,
    {
        self.elements.as_slice()
    }

    /// A fresh array with the elements of `self` followed by those of `other`.
    pub fn concat(&self, other: &Array<T>) -> (r: Array<T>)
        requires
            self@.len() + other@.len() <= usize::MAX,
        ensures
            r@ == self@ + other@,
    {
        let total = self.len() + other.len();
        let mut elements: Vec<T> = Vec::with_capacity(total);
        let mut i: usize = 0;
        while i < self.len()
            invariant
                i <= self@.len(),
                elements@ == self@.subrange(0, i as int),
            decreases self@.len() - i,
        {
            elements.push(self.get(i));
            i += 1;
        }
        let mut j: usize = 0;
        while j < other.len()
            invariant
                j <= other@.len(),
                elements@ == self@ + other@.subrange(0, j as int),
            decreases other@.len() - j,
        {
            elements.push(other.get(j));
            j += 1;
        }
        assert(other@.subrange(0, other@.len() as int) == other@);
        Array { elements }
    }

    /// A fresh copy of the half-open range `[first, last)`.
    pub fn splice(&self, first: usize, last: usize) -> (r: Array<T>)
        requires
            first < last,
            last <= self@.len(),
        ensures
            r@ == self@.subrange(first as int, last as int),
    {
        let mut elements: Vec<T> = Vec::with_capacity(last - first);
        let mut i: usize = first;
        while i < last
            invariant
                first <= i <= last,
                last <= self@.len(),
                elements@ == self@.subrange(first as int, i as int),
            decreases last - i,
        {
            elements.push(self.get(i));
            i += 1;
        }
        Array { elements }
    }

    /// A fresh array whose element `i` is what `f` returns on element `i`
    /// of `self`.
    pub fn map<F: Fn(T) -> T>(&self, f: F) -> (r: Array<T>)
        requires
            forall|i: int| 0 <= i < self@.len() ==> f.requires((self@[i],)),
        ensures
            r@.len() == self@.len(),
            forall|i: int| 0 <= i < self@.len() ==> f.ensures((self@[i],), #[trigger] r@[i]),
    {
        let mut elements: Vec<T> = Vec::with_capacity(self.len());
        let mut i: usize = 0;
        while i < self.len()
            invariant
                i <= self@.len(),
                elements@.len() == i,
                forall|k: int| 0 <= k < self@.len() ==> f.requires((self@[k],)),
                forall|k: int| 0 <= k < i ==> f.ensures((self@[k],), #[trigger] elements@[k]),
            decreases self@.len() - i,
        {
            let v = f(self.get(i));
            elements.push(v);
            i += 1;
        }
        Array { elements }
    }

    /// A fresh array whose element `i` is what `f` returns on element `i`
    /// of `self` and element `i` of `other`; the lengths must agree.
    pub fn zip_with<F: Fn(T, T) -> T>(&self, other: &Array<T>, f: F) -> (r: Array<T>)
        requires
            self@.len() == other@.len(),
            forall|i: int| 0 <= i < self@.len() ==> f.requires((self@[i], other@[i])),
        ensures
            r@.len() == self@.len(),
            forall|i: int|
                0 <= i < self@.len() ==> f.ensures((self@[i], other@[i]), #[trigger] r@[i]),
    {
        let mut elements: Vec<T> = Vec::with_capacity(self.len());
        let mut i: usize = 0;
        while i < self.len()
            invariant
                i <= self@.len(),
                self@.len() == other@.len(),
                elements@.len() == i,
                forall|k: int| 0 <= k < self@.len() ==> f.requires((self@[k], other@[k])),
                forall|k: int|
                    0 <= k < i ==> f.ensures((self@[k], other@[k]), #[trigger] elements@[k]),
            decreases self@.len() - i,
        {
            let v = f(self.get(i), other.get(i));
            elements.push(v);
            i += 1;
        }
        Array { elements }
    }

    /// Folds `f` over the elements from the first to the last, starting at
    /// `init`.
    pub fn fold<A, F: Fn(A, T) -> A>(&self, init: A, f: F) -> (r: A)
        requires
            forall|a: A, i: int| 0 <= i < self@.len() ==> f.requires((a, self@[i])),
        ensures
            folds_to(f, init, self@, r),
    {
        let mut acc = init;
        let ghost mut trace: Seq<A> = seq![init];
        let mut i: usize = 0;
        while i < self.len()
            invariant
                i <= self@.len(),
                forall|a: A, k: int| 0 <= k < self@.len() ==> f.requires((a, self@[k])),
                is_fold_trace(f, init, self@.subrange(0, i as int), trace),
                trace.last() == acc,
            decreases self@.len() - i,
        {
            let x = self.get(i);
            acc = f(acc, x);
            proof {
                let old_trace = trace;
                trace = trace.push(acc);
                let s = self@.subrange(0, i as int + 1);
                assert forall|k: int| 0 <= k < s.len() implies f.ensures((trace[k], s[k]), #[trigger] trace[k + 1]) by {
                    if k < i {
                        assert(trace[k] == old_trace[k]);
                        assert(trace[k + 1] == old_trace[k + 1]);
                        assert(s[k] == self@.subrange(0, i as int)[k]);
                    }
                }
            }
            i += 1;
        }
        assert(self@.subrange(0, self@.len() as int) == self@);
        acc
    }

    /// The dot product of `self` and `other` built from `mul` and `add`:
    /// the elementwise products folded with `add` from `zero`.
    pub fn dotp_with<M: Fn(T, T) -> T, A: Fn(T, T) -> T>(&self, other: &Array<T>, zero: T, mul: M, add: A) -> (r: T)
        requires
            self@.len() == other@.len(),
            forall|a: T, b: T| mul.requires((a, b)),
            forall|a: T, b: T| add.requires((a, b)),
        ensures
            is_dot_outcome(mul, add, zero, self@, other@, r),
    {
        let products = self.zip_with(other, mul);
        let r = products.fold(zero, add);
        assert(folds_to(add, zero, products@, r));
        r
    }
}

/// Adding `b` and then subtracting it gives `a` back: if `sum` is an
/// outcome of `a.zip_with(b, add)` and `back` one of
/// `sum.zip_with(b, sub)`, then `back` is `a`, for all `a` and `b` on whose
/// elements `sub` undoes `add` (with floating-point numbers, those where
/// adding `b[i]` loses no digit of `a[i]`).
pub proof fn lemma_plus_then_minus<T, A: Fn(T, T) -> T, S: Fn(T, T) -> T>(
    a: Seq<T>,
    b: Seq<T>,
    sum: Seq<T>,
    back: Seq<T>,
    add: A,
    sub: S,
)
    requires
        a.len() == b.len(),
        sum.len() == a.len(),
        back.len() == a.len(),
        forall|i: int| 0 <= i < a.len() ==> add.ensures((a[i], b[i]), #[trigger] sum[i]),
        forall|i: int| 0 <= i < a.len() ==> sub.ensures((sum[i], b[i]), #[trigger] back[i]),
        forall|i: int, u: T, v: T|
            0 <= i < a.len() && #[trigger] add.ensures((a[i], b[i]), u) && #[trigger] sub.ensures((u, b[i]), v) ==> v == a[i],
    ensures
        back == a,
{
    assert forall|i: int| 0 <= i < a.len() implies back[i] == a[i] by {
        assert(add.ensures((a[i], b[i]), sum[i]));
        assert(sub.ensures((sum[i], b[i]), back[i]));
    }
    assert(back =~= a);
}

} // verus!
