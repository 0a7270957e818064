//! A fixed-capacity sequence container.
//!
//! `Vec<T, N>` holds at most `N` elements. The live elements always
//! occupy the contiguous prefix `[0, length)`; the capacity never changes
//! for a given value (`resize` builds a new vector with a larger capacity).

use vstd::prelude::*;

verus! {

use vstd::pervasive::VecAdditionalExecFns;

/// A sequence of at most `N` elements of type `T`.
///
/// The abstract value (the view) is the sequence of live elements; the
/// well-formedness condition [`Vec::wf`] bounds its length by `N`.
#[derive(Debug, Clone)]
pub struct Vec<T, const N: usize> {
    data: std::vec::Vec<T>,
}

impl<T, const N: usize> View for Vec<T, N> {
    type V = Seq<T>;

    closed spec fn view(&self) -> Seq<T> {
        self.data@
    }
}

impl<T, const N: usize> Vec<T, N> {
    /// The container invariant: the live prefix never exceeds the capacity.
    pub open spec fn wf(&self) -> bool {
        self@.len() <= N
    }

    /// Creates an empty vector.
    pub fn new() -> (r: Self)
        ensures
            r@ == Seq::<T>::empty(),
            r.wf(),
    {
        Vec { data: std::vec::Vec::new() }
    }

    /// Appends `value` at index `length`. A full vector cannot accept
    /// another element, so callers must leave room; [`Vec::try_push`] is the
    /// checked alternative.
    pub fn push(&mut self, value: T)
        requires
            old(self).wf(),
            old(self)@.len() < N,
        ensures
            final(self)@ == old(self)@.push(value),
            final(self).wf(),
    {
        self.data.push(value);
    }

    /// Appends `value` if there is room and reports whether it was stored;
    /// a full vector is left exactly as it was.
    pub fn try_push(&mut self, value: T) -> (r: bool)
        requires
            old(self).wf(),
        ensures
            old(self)@.len() < N ==> r && final(self)@ == old(self)@.push(value),
            old(self)@.len() >= N ==> !r && final(self)@ == old(self)@,
            final(self).wf(),
    {
        if self.data.len() < N {
            self.data.push(value);
            true
        } else {
            false
        }
    }

    /// Overwrites the element at `index` if it is live; an out-of-range
    /// index is deliberately a silent no-op and never extends the vector.
    pub fn set(&mut self, index: usize, new_value: T)
        ensures
            index < old(self)@.len() ==> final(self)@ == old(self)@.update(index as int, new_value),
            index >= old(self)@.len() ==> final(self)@ == old(self)@,
    {
        if index < self.data.len() {
            self.data.set(index, new_value);
        }
    }

    /// The number of live elements.
    pub fn len(&self) -> (r: usize)
        ensures
            r == self@.len(),
    {
        self.data.len()
    }

    /// The fixed capacity.
    pub fn size(&self) -> (r: usize)
        ensures
            r == N,
    {
        N
    }

    /// A read-only view of exactly the live prefix.
    pub fn as_slice(&self) -> (r: &[T])
        ensures
            r@ == self@,
    {
        self.data.as_slice()
    }
}

impl<T: Copy, const N: usize> Vec<T, N> {
    /// Copies elements from `value` in order, stopping once the input is
    /// exhausted or the capacity is reached (silent truncation).
    pub fn from_slice(value: &[T]) -> (r: Self)
        ensures
            r@ == value@.take(vstd::math::min(value@.len() as int, N as int)),
            r.wf(),
    {
        let mut vector = Self::new();
        let length = value.len();
        let mut index: usize = 0;

        while index < length && index < N
            invariant
                index <= length,
                index <= N,
                length == value@.len(),
                vector@ == value@.take(index as int),
            decreases length - index,
        {
            vector.push(value[index]);
            assert(vector@ =~= value@.take(index + 1));
            index += 1;
        }
        assert(vector@ =~= value@.take(vstd::math::min(value@.len() as int, N as int)));
        vector
    }

    /// The element at `index`, or absent when `index` is at or beyond the
    /// live prefix; never reads an unset slot.
    pub fn get(&self, index: usize) -> (r: Option<T>)
        ensures
            index < self@.len() ==> r == Some(self@[index as int]),
            index >= self@.len() ==> r is None,
    {
        if index < self.data.len() {
            Some(self.data[index])
        } else {
            None
        }
    }

    /// Copies the range `[start, end)` into a fresh vector of the same
    /// capacity. The range must lie within the live prefix: only live slots
    /// are ever read.
    pub fn slice(&self, start: usize, end: usize) -> (r: Self)
        requires
            self.wf(),
            start <= end <= self@.len(),
        ensures
            r@ == self@.subrange(start as int, end as int),
            r.wf(),
    {
        let mut result = Self::new();
        let mut index: usize = start;

        while index < end
            invariant
                start <= index <= end <= self@.len(),
                self.wf(),
                result@ == self@.subrange(start as int, index as int),
            decreases end - index,
        {
            let element = self.data[index];
            result.push(element);
            assert(result@ =~= self@.subrange(start as int, index + 1));
            index += 1;
        }
        result
    }

    /// Builds a vector with the not-smaller capacity `N2`, copying every
    /// live element in order. This operation only grows: a shrinking request
    /// is excluded, since it could not hold every live element.
    pub fn resize<const N2: usize>(&self) -> (r: Vec<T, N2>)
        requires
            self.wf(),
            N <= N2,
        ensures
            r@ == self@,
            r.wf(),
    {
        let mut new_vector = Vec::<T, N2>::new();
        let length = self.data.len();
        let mut index: usize = 0;

        while index < length
            invariant
                index <= length,
                length == self@.len(),
                self@.len() <= N <= N2,
                new_vector@ == self@.take(index as int),
            decreases length - index,
        {
            let element = self.data[index];
            new_vector.push(element);
            assert(new_vector@ =~= self@.take(index + 1));
            index += 1;
        }
        assert(new_vector@ =~= self@);
        new_vector
    }
}

/// Pushing appends and disturbs nothing: after a push the length has grown
/// by one, the new value sits at the old length, and every index readable
/// before reads back exactly the value it held -- so pushing `n` values one
/// by one leaves them at indices `0..n`, in order, with length `n`, and
/// `get` hands each of them back.
pub proof fn lemma_push_then_read<T, const N: usize>(before: Vec<T, N>, after: Vec<T, N>, value: T)
    requires
        after@ == before@.push(value),
    ensures
        after@.len() == before@.len() + 1,
        after@[before@.len() as int] == value,
        forall|i: int| 0 <= i < before@.len() ==> after@[i] == before@[i],
{
}

} // verus!
