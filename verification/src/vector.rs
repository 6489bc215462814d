use vstd::prelude::*;
use vstd::std_specs::iter::IteratorSpec;
use crate::error::MathError;
use crate::scalar::{Scalar, abs};
use crate::text::decimal;
use crate::validate::{ensure_same_len, is_dimension_mismatch};

verus! {

broadcast use vstd::std_specs::slice::group_slice_axioms;

/// The sum of a sequence of integers.
pub open spec fn sum(s: Seq<int>) -> int
    decreases s.len(),
{
    if s.len() == 0 {
        0
    } else {
        sum(s.drop_last()) + s.last()
    }
}

/// The largest of a sequence of integers, and 0 for the empty sequence.
pub open spec fn max_of(s: Seq<int>) -> int
    decreases s.len(),
{
    if s.len() == 0 {
        0
    } else {
        let m = max_of(s.drop_last());
        if s.last() > m { s.last() } else { m }
    }
}

/// The integers a sequence of scalars stands for.
pub open spec fn values<T: Scalar>(s: Seq<T>) -> Seq<int> {
    Seq::new(s.len(), |i: int| s[i].value())
}

/// The absolute values of a sequence of scalars.
pub open spec fn magnitudes<T: Scalar>(s: Seq<T>) -> Seq<int> {
    Seq::new(s.len(), |i: int| abs(s[i].value()))
}

/// The squares of a sequence of scalars.
pub open spec fn squares<T: Scalar>(s: Seq<T>) -> Seq<int> {
    Seq::new(s.len(), |i: int| s[i].value() * s[i].value())
}

/// The products of the entries of `a` and `b` at each index.
pub open spec fn products<T: Scalar>(a: Seq<T>, b: Seq<T>) -> Seq<int> {
    Seq::new(a.len(), |i: int| a[i].value() * b[i].value())
}

/// `x` is within the range of `T`.
pub open spec fn fits<T: Scalar>(x: int) -> bool {
    T::lowest() <= x <= T::highest()
}

/// Each term and the sum of each prefix of `terms` is within the range of `T`.
pub open spec fn sums_fit<T: Scalar>(terms: Seq<int>) -> bool {
    &&& forall|i: int| 0 <= i < terms.len() ==> fits::<T>(#[trigger] terms[i])
    &&& forall|k: int| 0 <= k <= terms.len() ==> fits::<T>(#[trigger] sum(terms.take(k)))
}

/// The sum of a prefix of a sequence of nonnegative integers is at most the
/// sum of the whole, and so is each term.
pub proof fn lemma_sum_nonnegative_prefix(s: Seq<int>, k: int)
    requires
        0 <= k <= s.len(),
        forall|i: int| 0 <= i < s.len() ==> s[i] >= 0,
    ensures
        0 <= sum(s.take(k)) <= sum(s),
        k < s.len() ==> s[k] <= sum(s),
    decreases s.len(),
{
    if s.len() == 0 {
        assert(s.take(k) =~= s);
    } else if k == s.len() {
        assert(s.take(k) =~= s);
        lemma_sum_nonnegative_prefix(s.drop_last(), k - 1);
        assert(s.drop_last().take(k - 1) =~= s.drop_last());
    } else {
        lemma_sum_nonnegative_prefix(s.drop_last(), k);
        assert(s.drop_last().take(k) =~= s.take(k));
        if k < s.len() - 1 {
            assert(s.drop_last()[k] == s[k]);
        } else {
            lemma_sum_nonnegative_prefix(s.drop_last(), k);
            assert(s.drop_last().take(k) =~= s.drop_last());
        }
    }
}

/// Removing one term of a sum takes away exactly that term.
pub proof fn lemma_sum_remove(s: Seq<int>, p: int)
    requires
        0 <= p < s.len(),
    ensures
        sum(s) == sum(s.remove(p)) + s[p],
    decreases s.len(),
{
    if p < s.len() - 1 {
        lemma_sum_remove(s.drop_last(), p);
        assert(s.remove(p).drop_last() =~= s.drop_last().remove(p));
        assert(s.remove(p).last() == s.last());
    } else {
        assert(s.remove(p) =~= s.drop_last());
    }
}

/// Picking terms at distinct positions of a sequence of nonnegative integers
/// sums to at most the whole.
pub proof fn lemma_sum_pick_distinct(w: Seq<int>, idx: Seq<int>)
    requires
        forall|i: int| 0 <= i < w.len() ==> w[i] >= 0,
        forall|i: int| 0 <= i < idx.len() ==> 0 <= #[trigger] idx[i] < w.len(),
        forall|i: int, j: int| 0 <= i < j < idx.len() ==> idx[i] != idx[j],
    ensures
        0 <= sum(Seq::new(idx.len(), |i: int| w[idx[i]])) <= sum(w),
    decreases w.len(),
{
    let picked = Seq::new(idx.len(), |i: int| w[idx[i]]);
    if w.len() == 0 {
        if idx.len() > 0 {
            assert(0 <= idx[0] < w.len());
        }
        assert(picked =~= Seq::<int>::empty());
    } else {
        let last = w.len() - 1;
        let w1 = w.drop_last();
        if exists|p: int| 0 <= p < idx.len() && idx[p] == last {
            let p = choose|p: int| 0 <= p < idx.len() && idx[p] == last;
            let idx1 = idx.remove(p);
            assert forall|i: int| 0 <= i < idx1.len() implies 0 <= #[trigger] idx1[i] < w1.len() by {
                if i < p {
                    assert(idx1[i] == idx[i]);
                } else {
                    assert(idx1[i] == idx[i + 1]);
                }
            }
            assert forall|i: int, j: int| 0 <= i < j < idx1.len() implies idx1[i] != idx1[j] by {
                let a = if i < p { i } else { i + 1 };
                let b = if j < p { j } else { j + 1 };
                assert(idx1[i] == idx[a] && idx1[j] == idx[b]);
            }
            lemma_sum_pick_distinct(w1, idx1);
            lemma_sum_remove(picked, p);
            assert(picked.remove(p) =~= Seq::new(idx1.len(), |i: int| w1[idx1[i]])) by {
                assert forall|i: int| 0 <= i < idx1.len() implies picked.remove(p)[i] == w1[idx1[i]] by {
                    if i < p {
                        assert(idx1[i] == idx[i]);
                    } else {
                        assert(idx1[i] == idx[i + 1]);
                    }
                }
            }
        } else {
            assert forall|i: int| 0 <= i < idx.len() implies 0 <= #[trigger] idx[i] < w1.len() by {
                assert(idx[i] != last);
            }
            lemma_sum_pick_distinct(w1, idx);
            assert(picked =~= Seq::new(idx.len(), |i: int| w1[idx[i]]));
        }
    }
}

/// The dot product is symmetric.
pub proof fn lemma_dot_symmetric<T: Scalar>(a: Seq<T>, b: Seq<T>)
    requires
        a.len() == b.len(),
    ensures
        sum(products(a, b)) == sum(products(b, a)),
{
    assert forall|i: int| 0 <= i < a.len() implies #[trigger] products(a, b)[i] == products(b, a)[i] by {
        let x = a[i].value();
        let y = b[i].value();
        assert(x * y == y * x) by (nonlinear_arith);
    }
    assert(products(a, b) =~= products(b, a));
}

/// Nonnegative terms whose total fits `T` have every prefix sum and every
/// term fitting too.
proof fn lemma_nonnegative_sums_fit<T: Scalar>(s: Seq<int>)
    requires
        forall|i: int| 0 <= i < s.len() ==> s[i] >= 0,
        sum(s) <= T::highest(),
    ensures
        sums_fit::<T>(s),
{
    T::lemma_range(vstd::pervasive::arbitrary());
    assert forall|k: int| 0 <= k <= s.len() implies fits::<T>(#[trigger] sum(s.take(k))) by {
        lemma_sum_nonnegative_prefix(s, k);
    }
    assert forall|i: int| 0 <= i < s.len() implies fits::<T>(#[trigger] s[i]) by {
        lemma_sum_nonnegative_prefix(s, i);
    }
}

/// `len` zeros.
pub(crate) fn zero_entries<T: Scalar>(len: usize) -> (r: Vec<T>)
    ensures
        r@.len() == len,
        forall|i: int| 0 <= i < len ==> (#[trigger] r@[i]).value() == 0,
{
    let mut data: Vec<T> = Vec::new();
    let mut i: usize = 0;
    while i < len
        invariant
            i <= len,
            data@.len() == i,
            forall|j: int| 0 <= j < i ==> (#[trigger] data@[j]).value() == 0,
        decreases len - i,
    {
        data.push(T::zero());
        i = i + 1;
    }
    data
}

/// The sum of the products of the entries of `a` and `b` at each index.
pub(crate) fn sum_of_products<T: Scalar>(a: &[T], b: &[T]) -> (r: T)
    requires
        a@.len() == b@.len(),
        sums_fit::<T>(products(a@, b@)),
    ensures
        r.value() == sum(products(a@, b@)),
{
    let ghost terms = products(a@, b@);
    let mut acc = T::zero();
    let mut i: usize = 0;
    assert(terms.take(0) =~= Seq::<int>::empty());
    while i < a.len()
        invariant
            a@.len() == b@.len(),
            terms == products(a@, b@),
            sums_fit::<T>(terms),
            i <= a@.len(),
            acc.value() == sum(terms.take(i as int)),
        decreases a@.len() - i,
    {
        assert(terms.take(i + 1).drop_last() =~= terms.take(i as int));
        assert(fits::<T>(terms[i as int]));
        assert(fits::<T>(sum(terms.take(i + 1))));
        let term = a[i].times(b[i]);
        acc = acc.plus(term);
        i = i + 1;
    }
    assert(terms.take(i as int) =~= terms);
    acc
}

/// A dense vector.
#[derive(Debug, Clone, PartialEq)]
pub struct Vector<T> {
    data: Vec<T>,
}

impl<T> View for Vector<T> {
    type V = Seq<T>;

    closed spec fn view(&self) -> Seq<T> {
        self.data@
    }
}

impl<T> Vector<T> {
    pub fn new(data: Vec<T>) -> (r: Self)
        ensures
            r@ == data@,
    {
        Vector { data }
    }

    pub fn len(&self) -> (r: usize)
        ensures
            r == self@.len(),
    {
        self.data.len()
    }

    pub fn is_empty(&self) -> (r: bool)
        ensures
            r == (self@.len() == 0),
    {
        self.data.len() == 0
    }

    pub fn as_slice(&self) -> (r: &[T])
        ensures
            r@ == self@,
    {
        self.data.as_slice()
    }

    pub fn into_vec(self) -> (r: Vec<T>)
        ensures
            r@ == self@,
    {
        self.data
    }

    /// The entry at `index`.
    pub fn get(&self, index: usize) -> (r: &T)
        requires
            index < self@.len(),
        ensures
            *r == self@[index as int],
    {
        &self.data[index]
    }

    /// Replaces the entry at `index`.
    pub fn set(&mut self, index: usize, value: T)
        requires
            index < old(self)@.len(),
        ensures
            final(self)@ == old(self)@.update(index as int, value),
    {
        self.data.set(index, value);
    }

    /// The entries in order.
    pub fn iter(&self) -> (r: std::slice::Iter<'_, T>)
        ensures
            r.remaining() == self@.map_values(|x: T| &x),
    {
        let it = self.data.as_slice().iter();
        assert(self@.map_values(|x: T| &x) =~= self.data@.as_ref());
        it
    }

    /// Applies `f` to each entry.
    pub fn map<U, F: Fn(T) -> U>(&self, f: F) -> (r: Vector<U>)
        where T: Copy,
        requires
            forall|i: int| 0 <= i < self@.len() ==> f.requires((#[trigger] self@[i],)),
        ensures
            r@.len() == self@.len(),
            forall|i: int| 0 <= i < self@.len() ==> f.ensures((self@[i],), #[trigger] r@[i]),
    {
        let mut data: Vec<U> = Vec::new();
        let mut i: usize = 0;
        while i < self.data.len()
            invariant
                i <= self@.len(),
                data@.len() == i,
                forall|j: int| 0 <= j < self@.len() ==> f.requires((#[trigger] self@[j],)),
                forall|j: int| 0 <= j < i ==> f.ensures((self@[j],), #[trigger] data@[j]),
            decreases self@.len() - i,
        {
            data.push(f(self.data[i]));
            i = i + 1;
        }
        Vector { data }
    }

    /// Applies `f` to the entries of `self` and `other` at each index; the two
    /// must have the same length.
    pub fn zip_map<U, V, F: Fn(T, U) -> V>(&self, other: &Vector<U>, f: F) -> (r: Result<Vector<V>, MathError>)
        where T: Copy, U: Copy,
        requires
            self@.len() == other@.len() ==> forall|i: int| 0 <= i < self@.len()
                ==> f.requires((#[trigger] self@[i], other@[i])),
        ensures
            r is Ok <==> self@.len() == other@.len(),
            r matches Ok(v) ==> v@.len() == self@.len()
                && forall|i: int| 0 <= i < self@.len() ==> f.ensures((self@[i], other@[i]), #[trigger] v@[i]),
            r matches Err(e) ==> is_dimension_mismatch(
                e,
                "matching lengths in "@ + "vector zip_map"@,
                decimal(self@.len()) + " vs "@ + decimal(other@.len()),
            ),
    {
        let checked = ensure_same_len(self.as_slice(), other.as_slice(), "vector zip_map");
        match checked {
            Err(e) => return Err(e),
            Ok(()) => {},
        }
        let mut data: Vec<V> = Vec::new();
        let mut i: usize = 0;
        while i < self.data.len()
            invariant
                self@.len() == other@.len(),
                i <= self@.len(),
                data@.len() == i,
                forall|j: int| 0 <= j < self@.len() ==> f.requires((#[trigger] self@[j], other@[j])),
                forall|j: int| 0 <= j < i ==> f.ensures((self@[j], other@[j]), #[trigger] data@[j]),
            decreases self@.len() - i,
        {
            data.push(f(self.data[i], other.data[i]));
            i = i + 1;
        }
        Ok(Vector { data })
    }
}

impl<T: Scalar> Vector<T> {
    /// The vector of `len` zeros.
    pub fn zeros(len: usize) -> (r: Self)
        ensures
            r@.len() == len,
            forall|i: int| 0 <= i < len ==> (#[trigger] r@[i]).value() == 0,
    {
        Vector { data: zero_entries(len) }
    }

    /// The dot product; the vectors must have the same length.
    pub fn dot(&self, other: &Self) -> (r: Result<T, MathError>)
        requires
            self@.len() == other@.len() ==> sums_fit::<T>(products(self@, other@)),
        ensures
            r is Ok <==> self@.len() == other@.len(),
            r matches Ok(v) ==> v.value() == sum(products(self@, other@)),
            r matches Err(e) ==> is_dimension_mismatch(
                e,
                "matching lengths in "@ + "vector dot product"@,
                decimal(self@.len()) + " vs "@ + decimal(other@.len()),
            ),
    {
        let checked = ensure_same_len(self.as_slice(), other.as_slice(), "vector dot product");
        match checked {
            Err(e) => return Err(e),
            Ok(()) => {},
        }
        Ok(sum_of_products(self.data.as_slice(), other.data.as_slice()))
    }

    /// The sum of the absolute values of the entries.
    pub fn l1_norm(&self) -> (r: T)
        requires
            sum(magnitudes(self@)) <= T::highest(),
        ensures
            r.value() == sum(magnitudes(self@)),
    {
        let ghost terms = magnitudes(self@);
        proof {
            lemma_nonnegative_sums_fit::<T>(terms);
        }
        let mut acc = T::zero();
        let mut i: usize = 0;
        assert(terms.take(0) =~= Seq::<int>::empty());
        while i < self.data.len()
            invariant
                terms == magnitudes(self@),
                sums_fit::<T>(terms),
                i <= self@.len(),
                acc.value() == sum(terms.take(i as int)),
            decreases self@.len() - i,
        {
            assert(terms.take(i + 1).drop_last() =~= terms.take(i as int));
            assert(fits::<T>(terms[i as int]));
            assert(fits::<T>(sum(terms.take(i + 1))));
            let term = self.data[i].magnitude();
            acc = acc.plus(term);
            i = i + 1;
        }
        assert(terms.take(i as int) =~= terms);
        acc
    }

    /// The integer square root of the sum of the squares of the entries: the
    /// Euclidean length, rounded down.
    pub fn l2_norm(&self) -> (r: T)
        requires
            sum(squares(self@)) <= T::highest(),
        ensures
            r.value() >= 0,
            r.value() * r.value() <= sum(squares(self@)) < (r.value() + 1) * (r.value() + 1),
    {
        let ghost terms = squares(self@);
        proof {
            assert forall|i: int| 0 <= i < terms.len() implies terms[i] >= 0 by {
                let x = self@[i].value();
                assert(x * x >= 0) by (nonlinear_arith);
            }
            lemma_nonnegative_sums_fit::<T>(terms);
        }
        let mut acc = T::zero();
        let mut i: usize = 0;
        assert(terms.take(0) =~= Seq::<int>::empty());
        while i < self.data.len()
            invariant
                terms == squares(self@),
                sums_fit::<T>(terms),
                forall|j: int| 0 <= j < terms.len() ==> terms[j] >= 0,
                i <= self@.len(),
                acc.value() == sum(terms.take(i as int)),
            decreases self@.len() - i,
        {
            assert(terms.take(i + 1).drop_last() =~= terms.take(i as int));
            assert(fits::<T>(terms[i as int]));
            assert(fits::<T>(sum(terms.take(i + 1))));
            let x = self.data[i];
            let term = x.times(x);
            acc = acc.plus(term);
            i = i + 1;
        }
        assert(terms.take(i as int) =~= terms);
        proof {
            lemma_sum_nonnegative_prefix(terms, 0);
        }
        acc.floor_sqrt()
    }

    /// The largest absolute value of an entry, and zero for the empty vector.
    pub fn inf_norm(&self) -> (r: T)
        requires
            forall|i: int| 0 <= i < self@.len() ==> -(#[trigger] self@[i]).value() <= T::highest(),
        ensures
            r.value() == max_of(magnitudes(self@)),
    {
        let ghost terms = magnitudes(self@);
        let mut best = T::zero();
        let mut i: usize = 0;
        assert(terms.take(0) =~= Seq::<int>::empty());
        while i < self.data.len()
            invariant
                terms == magnitudes(self@),
                forall|j: int| 0 <= j < self@.len() ==> -(#[trigger] self@[j]).value() <= T::highest(),
                i <= self@.len(),
                best.value() == max_of(terms.take(i as int)),
            decreases self@.len() - i,
        {
            assert(terms.take(i + 1).drop_last() =~= terms.take(i as int));
            let candidate = self.data[i].magnitude();
            if best.less_than(candidate) {
                best = candidate;
            }
            i = i + 1;
        }
        assert(terms.take(i as int) =~= terms);
        best
    }
}

} // verus!
