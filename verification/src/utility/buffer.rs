//! A bounded first-in first-out queue.

use std::collections::VecDeque;
use vstd::prelude::*;

verus! {

/// A queue that is full at `buffer_size` items: items enter at the front
/// and leave at the back.
pub struct Buffer<T> {
    buffer: VecDeque<T>,
    buffer_size: usize,
}

impl<T> Buffer<T> {
    /// The items, oldest last.
    pub closed spec fn items(&self) -> Seq<T> {
        self.buffer@
    }

    /// The number of items at which the queue counts as full.
    pub closed spec fn capacity(&self) -> nat {
        self.buffer_size as nat
    }

    /// An empty queue that is full at `buffer_size` items.
    pub fn with_capacity(buffer_size: usize) -> (res: Self)
        ensures
            res.items() == Seq::<T>::empty(),
            res.capacity() == buffer_size,
    {
        let buffer = VecDeque::with_capacity(buffer_size);
        Buffer { buffer, buffer_size }
    }

    /// Puts `value` in at the front.
    pub fn push_front(&mut self, value: T)
        ensures
            final(self).items() == seq![value].add(old(self).items()),
            final(self).capacity() == old(self).capacity(),
    {
        self.buffer.push_front(value);
    }

    /// Takes the oldest item out, if there is one.
    pub fn pop_back(&mut self) -> (res: Option<T>)
        ensures
            final(self).capacity() == old(self).capacity(),
            old(self).items().len() == 0 ==> res is None && final(self).items() == old(self).items(),
            old(self).items().len() > 0 ==> res == Some(old(self).items().last()) && final(self).items()
                == old(self).items().drop_last(),
    {
        self.buffer.pop_back()
    }

    /// Whether the queue holds `capacity` items or more.
    pub fn is_full(&self) -> (res: bool)
        ensures
            res == (self.items().len() >= self.capacity()),
    {
        self.buffer.len() >= self.buffer_size
    }
}

/// The items of a queue holding `q` after `vs` were put in, first to last.
pub open spec fn push_all<T>(q: Seq<T>, vs: Seq<T>) -> Seq<T>
    decreases vs.len(),
{
    if vs.len() == 0 {
        q
    } else {
        push_all(seq![vs[0]].add(q), vs.drop_first())
    }
}

/// First in, first out: after the values `vs` were put into a queue
/// holding `q`, the queue holds them newest first in front of `q`, so the
/// items of `q` leave first and then the values in the order they came.
pub proof fn lemma_fifo<T>(q: Seq<T>, vs: Seq<T>)
    ensures
        push_all(q, vs) == vs.reverse() + q,
    decreases vs.len(),
{
    if vs.len() > 0 {
        lemma_fifo(seq![vs[0]].add(q), vs.drop_first());
        assert(vs.reverse() =~= vs.drop_first().reverse() + seq![vs[0]]);
        assert(vs.drop_first().reverse() + (seq![vs[0]].add(q)) =~= vs.reverse() + q);
    } else {
        assert(vs.reverse() + q =~= q);
    }
}

} // verus!
