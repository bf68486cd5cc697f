//! An iterator wrapper that takes items back.
//!
//! Items that were put back are handed out again, oldest first, before the
//! wrapped iterator is asked for more.

use std::collections::VecDeque;
use vstd::prelude::*;
use vstd::std_specs::iter::IteratorSpec;

verus! {

/// An iterator together with the items that were put back to it.
pub struct PutBack<I, T> {
    iter: I,
    buf: VecDeque<T>,
}

impl<I: Iterator<Item = T>, T> PutBack<I, T> {
    /// The items that were put back and not yet handed out again, oldest
    /// first.
    pub closed spec fn pending(&self) -> Seq<T> {
        self.buf@
    }

    /// The wrapped iterator.
    pub closed spec fn source(&self) -> I {
        self.iter
    }

    /// Wraps `iter`, with nothing put back.
    pub fn new(iter: I) -> (wrapped: Self)
        ensures
            wrapped.pending() == Seq::<T>::empty(),
            wrapped.source() == iter,
    {
        Self { iter, buf: VecDeque::new() }
    }

    /// Puts `item` back: it is handed out again once every item that was
    /// put back before it has been, and before the wrapped iterator is
    /// asked again.
    pub fn put_back(&mut self, item: T)
        ensures
            final(self).pending() == old(self).pending().push(item),
            final(self).source() == old(self).source(),
    {
        self.buf.push_back(item);
    }

    /// The next item: the oldest of those that were put back, or else what
    /// the wrapped iterator yields.
    pub fn next(&mut self) -> (item: Option<T>)
        ensures
            old(self).pending().len() > 0 ==> {
                &&& item == Some(old(self).pending()[0])
                &&& final(self).pending() == old(self).pending().drop_first()
                &&& final(self).source() == old(self).source()
            },
            old(self).pending().len() == 0 ==> {
                &&& final(self).pending() == old(self).pending()
                &&& final(self).source().obeys_prophetic_iter_laws() == old(
                    self,
                ).source().obeys_prophetic_iter_laws()
            },
            old(self).pending().len() == 0 && old(self).source().obeys_prophetic_iter_laws() ==> (
            if old(self).source().remaining().len() > 0 {
                &&& item == Some(old(self).source().remaining()[0])
                &&& final(self).source().remaining() == old(self).source().remaining().drop_first()
            } else {
                &&& item is None
                &&& final(self).source().remaining() == old(self).source().remaining()
            }),
    {
        if self.buf.len() > 0 {
            self.buf.pop_front()
        } else {
            self.iter.next()
        }
    }
}

} // verus!
