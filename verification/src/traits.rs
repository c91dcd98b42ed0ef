//! Lists that hand out their elements by value.
use core::marker::PhantomData;
use vstd::prelude::*;

verus! {

/// A list that hands out its elements by value.
pub trait IndexMove<I, T>: Sized {
    /// Whether there is an element at `index` that can be handed out.
    spec fn index_ok(&self, index: I) -> bool;

    /// Whether `element` is the element at `index`.
    spec fn is_at(&self, index: I, element: T) -> bool;

    fn index_move(&self, index: I) -> (r: T)
        requires
            self.index_ok(index),
        ensures
            self.is_at(index, r),
    ;
}

/// Walks a list that counts its elements in 16 bits.
pub struct ShortListIter<L, T> {
    list: L,
    index: u16,
    size: u16,
    marker: PhantomData<T>,
}

impl<T, L: IndexMove<u16, T>> ShortListIter<L, T> {
    /// The list that is walked.
    pub closed spec fn list(self) -> L {
        self.list
    }

    /// The index of the next element.
    pub closed spec fn index(self) -> u16 {
        self.index
    }

    /// The index at which the walk ends.
    pub closed spec fn size(self) -> u16 {
        self.size
    }

    /// A walk over the first `size` elements.
    pub fn new(list: L, size: u16) -> (r: Self)
        ensures
            r.list() == list,
            r.index() == 0,
            r.size() == size,
    {
        ShortListIter { list, index: 0, size, marker: PhantomData }
    }

    /// The next element, if any is left.
    pub fn next(&mut self) -> (r: Option<T>)
        requires
            old(self).index() < old(self).size() ==> old(self).list().index_ok(old(self).index()),
        ensures
            final(self).list() == old(self).list(),
            final(self).size() == old(self).size(),
            match r {
                Some(element) => {
                    &&& old(self).index() < old(self).size()
                    &&& old(self).list().is_at(old(self).index(), element)
                    &&& final(self).index() == old(self).index() + 1
                },
                None => {
                    &&& old(self).index() >= old(self).size()
                    &&& final(self).index() == old(self).index()
                },
            },
    {
        if self.index < self.size {
            let result = self.list.index_move(self.index);
            self.index = self.index + 1;
            Some(result)
        } else {
            None
        }
    }
}

/// Walks a list that counts its elements in 32 bits.
pub struct ListIter<L, T> {
    list: L,
    index: u32,
    size: u32,
    marker: PhantomData<T>,
}

impl<T, L: IndexMove<u32, T>> ListIter<L, T> {
    /// The list that is walked.
    pub closed spec fn list(self) -> L {
        self.list
    }

    /// The index of the next element.
    pub closed spec fn index(self) -> u32 {
        self.index
    }

    /// The index at which the walk ends.
    pub closed spec fn size(self) -> u32 {
        self.size
    }

    /// A walk over the first `size` elements.
    pub fn new(list: L, size: u32) -> (r: Self)
        ensures
            r.list() == list,
            r.index() == 0,
            r.size() == size,
    {
        ListIter { list, index: 0, size, marker: PhantomData }
    }

    /// The next element, if any is left.
    pub fn next(&mut self) -> (r: Option<T>)
        requires
            old(self).index() < old(self).size() ==> old(self).list().index_ok(old(self).index()),
        ensures
            final(self).list() == old(self).list(),
            final(self).size() == old(self).size(),
            match r {
                Some(element) => {
                    &&& old(self).index() < old(self).size()
                    &&& old(self).list().is_at(old(self).index(), element)
                    &&& final(self).index() == old(self).index() + 1
                },
                None => {
                    &&& old(self).index() >= old(self).size()
                    &&& final(self).index() == old(self).index()
                },
            },
    {
        if self.index < self.size {
            let result = self.list.index_move(self.index);
            self.index = self.index + 1;
            Some(result)
        } else {
            None
        }
    }
}

} // verus!
