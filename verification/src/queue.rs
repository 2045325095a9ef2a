//! A first-in, first-out queue over a vector.

use vstd::prelude::*;

verus! {

/// A queue: items leave in the order they entered.
pub struct Queue<T> {
    queue: Vec<T>,
}

impl<T> View for Queue<T> {
    type V = Seq<T>;

    closed spec fn view(&self) -> Seq<T> {
        self.queue@
    }
}

impl<T> Queue<T> {
    /// An empty queue.
    pub fn new() -> (q: Queue<T>)
        ensures
            q@ == Seq::<T>::empty(),
    {
        Queue { queue: Vec::new() }
    }

    /// How many items are waiting.
    pub fn length(&self) -> (n: usize)
        ensures
            n == self@.len(),
    {
        self.queue.len()
    }

    /// Adds `item` at the back.
    pub fn enqueue(&mut self, item: T)
        ensures
            final(self)@ == old(self)@.push(item),
    {
        self.queue.push(item)
    }

    /// Removes and returns the front item.
    pub fn dequeue(&mut self) -> (item: T)
        requires
            old(self)@.len() > 0,
        ensures
            item == old(self)@[0],
            final(self)@ == old(self)@.drop_first(),
    {
        let item = self.queue.remove(0);
        proof {
            assert(self@ =~= old(self)@.drop_first());
        }
        item
    }

    /// Whether the queue holds nothing.
    pub fn is_empty(&self) -> (r: bool)
        ensures
            r == (self@.len() == 0),
    {
        self.queue.is_empty()
    }

    /// The front item, if any, without removing it.
    pub fn peek(&self) -> (r: Option<&T>)
        ensures
            match r {
                Some(x) => self@.len() > 0 && *x == self@[0],
                None => self@.len() == 0,
            },
    {
        if self.queue.len() == 0 {
            None
        } else {
            Some(&self.queue[0])
        }
    }
}

} // verus!
