use core::marker::PhantomData;
use vstd::prelude::*;

verus! {

/// A finite alphabet whose values are numbered `0 .. COUNT`.
///
/// `index` and `variant` form a bijection between the values and their
/// numbers; `lemma_index_valid` records that fact for proofs.
pub trait VariantIndex: Sized {
    /// The number of values of the alphabet.
    spec fn count_spec() -> u32;

    /// The number of this value.
    spec fn index_spec(&self) -> u32;

    /// The value with the given number.
    spec fn variant_spec(index: u32) -> Self;

    fn count() -> (r: u32)
        ensures
            r == Self::count_spec(),
    ;

    fn variant(index: u32) -> (r: Self)
        requires
            index < Self::count_spec(),
        ensures
            r == Self::variant_spec(index),
    ;

    fn index(&self) -> (r: u32)
        ensures
            r == self.index_spec(),
            r < Self::count_spec(),
    ;

    proof fn lemma_index_valid(&self)
        ensures
            self.index_spec() < Self::count_spec(),
            Self::variant_spec(self.index_spec()) == *self,
    ;
}

/// A half-open range of alphabet values, iterated by number.
pub struct VariantRange<T> {
    start: u32,
    end: u32,
    elem: PhantomData<T>,
}

impl<T: VariantIndex> VariantRange<T> {
    /// Both bounds stay within the alphabet, so stepping through the range
    /// only ever names valid values.
    pub closed spec fn wf(&self) -> bool {
        self.end <= T::count_spec()
    }

    /// The values this range still holds, in order.
    pub closed spec fn view(&self) -> Seq<T> {
        Seq::new(
            if self.start <= self.end {
                (self.end - self.start) as nat
            } else {
                0
            },
            |i: int| T::variant_spec((self.start + i) as u32),
        )
    }

    pub closed spec fn start_spec(&self) -> u32 {
        self.start
    }

    pub closed spec fn end_spec(&self) -> u32 {
        self.end
    }

    /// What the range holds, spelled out: the values numbered `start`
    /// through `end - 1`, in number order — and nothing at all when the
    /// bounds are out of order.
    pub proof fn lemma_view(&self)
        ensures
            self.start_spec() <= self.end_spec() ==> self@ == Seq::new(
                (self.end_spec() - self.start_spec()) as nat,
                |i: int| T::variant_spec((self.start_spec() + i) as u32),
            ),
            self.start_spec() > self.end_spec() ==> self@ == Seq::<T>::empty(),
            self@.len() == if self.start_spec() <= self.end_spec() {
                self.end_spec() - self.start_spec()
            } else {
                0
            },
            forall|i: int|
                0 <= i < self@.len() ==> self@[i] == T::variant_spec(
                    (self.start_spec() + i) as u32,
                ),
    {
        if self.start > self.end {
            assert(self@ =~= Seq::<T>::empty());
        }
    }

    /// The inclusive range from `start` to `end`.
    pub fn new(start: &T, end: &T) -> (r: Self)
        ensures
            r.wf(),
            r.start_spec() == start.index_spec(),
            r.end_spec() == end.index_spec() + 1,
    {
        VariantRange { start: start.index(), end: end.index() + 1, elem: PhantomData }
    }

    /// The range over the whole alphabet.
    pub fn full() -> (r: Self)
        ensures
            r.wf(),
            r.start_spec() == 0,
            r.end_spec() == T::count_spec(),
    {
        VariantRange { start: 0, end: T::count(), elem: PhantomData }
    }

    /// Whether `variant` lies in the range.
    pub fn contains(&self, variant: &T) -> (r: bool)
        ensures
            r == (self.start_spec() <= variant.index_spec() < self.end_spec()),
    {
        let i = variant.index();
        self.start <= i && i < self.end
    }

    /// Takes the first value of the range, or `None` when it is empty.
    pub fn next(&mut self) -> (r: Option<T>)
        requires
            old(self).wf(),
        ensures
            final(self).wf(),
            old(self)@.len() == 0 ==> r is None && *final(self) == *old(self),
            old(self)@.len() > 0 ==> r == Some(old(self)@[0])
                && final(self)@ == old(self)@.drop_first()
                && final(self).start_spec() == old(self).start_spec() + 1
                && final(self).end_spec() == old(self).end_spec(),
    {
        if self.start < self.end {
            let v = T::variant(self.start);
            self.start = self.start + 1;
            assert(self@ =~= old(self)@.drop_first());
            Some(v)
        } else {
            None
        }
    }

    /// Takes the last value of the range, or `None` when it is empty.
    pub fn next_back(&mut self) -> (r: Option<T>)
        requires
            old(self).wf(),
        ensures
            final(self).wf(),
            old(self)@.len() == 0 ==> r is None && *final(self) == *old(self),
            old(self)@.len() > 0 ==> r == Some(old(self)@.last())
                && final(self)@ == old(self)@.drop_last()
                && final(self).start_spec() == old(self).start_spec()
                && final(self).end_spec() == old(self).end_spec() - 1,
    {
        if self.start < self.end {
            let v = T::variant(self.end - 1);
            self.end = self.end - 1;
            assert(self@ =~= old(self)@.drop_last());
            Some(v)
        } else {
            None
        }
    }

    /// How many values remain.
    pub fn len(&self) -> (r: usize)
        ensures
            r == self@.len(),
    {
        if self.start <= self.end {
            (self.end - self.start) as usize
        } else {
            0
        }
    }

    /// The lower bound, as a number.
    pub fn start_index(&self) -> (r: u32)
        ensures
            r == self.start_spec(),
    {
        self.start
    }

    /// The bound past the end, as a number.
    pub fn end_index(&self) -> (r: u32)
        ensures
            r == self.end_spec(),
    {
        self.end
    }
}

impl<T: VariantIndex> Clone for VariantRange<T> {
    fn clone(&self) -> (r: Self)
        ensures
            r.start_spec() == self.start_spec(),
            r.end_spec() == self.end_spec(),
    {
        VariantRange { start: self.start, end: self.end, elem: PhantomData }
    }
}

impl<T: VariantIndex> Default for VariantRange<T> {
    /// The range over the whole alphabet.
    fn default() -> (r: Self)
        ensures
            r.wf(),
            r.start_spec() == 0,
            r.end_spec() == T::count_spec(),
    {
        VariantRange::full()
    }
}

} // verus!
