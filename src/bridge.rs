//! The event bridge: a single-consumer queue through which background work hands
//! its results to the rendering loop, in the order they were submitted.

use vstd::prelude::*;

verus! {

/// Messages waiting for the rendering loop, oldest first.
pub struct EventQueue<T> {
    items: Vec<T>,
}

impl<T> View for EventQueue<T> {
    type V = Seq<T>;

    closed spec fn view(&self) -> Seq<T> {
        self.items@
    }
}

impl<T> EventQueue<T> {
    /// An empty queue.
    pub fn new() -> (r: EventQueue<T>)
        ensures
            r@ == Seq::<T>::empty(),
    {
        EventQueue { items: Vec::new() }
    }

    /// Adds a message behind all those already waiting.
    pub fn submit(&mut self, message: T)
        ensures
            final(self)@ == old(self)@.push(message),
    {
        self.items.push(message);
    }

    /// The number of waiting messages.
    pub fn len(&self) -> (r: usize)
        ensures
            r == self@.len(),
    {
        self.items.len()
    }

    /// Takes every waiting message, oldest first, leaving the queue empty.
    pub fn drain(&mut self) -> (r: Vec<T>)
        ensures
            r@ == old(self)@,
            final(self)@ == Seq::<T>::empty(),
    {
        let mut taken: Vec<T> = Vec::new();
        std::mem::swap(&mut taken, &mut self.items);
        taken
    }
}

} // verus!
