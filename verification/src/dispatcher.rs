//! A first-in, first-out queue of messages between the parts of a universe.
use std::collections::VecDeque;
use vstd::prelude::*;

verus! {

/// A message about an actor.
#[derive(Debug, Clone, Copy, PartialEq, Eq, Structural)]
pub enum Message {
    Empty,
    Death { id: u64 },
}

impl Default for Message {
    fn default() -> (r: Self)
        ensures
            r == Message::Empty,
    {
        Message::Empty
    }
}

/// Messages in the order they were put.
pub struct Dispatcher<T> {
    messages: VecDeque<T>,
}

impl<T> View for Dispatcher<T> {
    type V = Seq<T>;

    closed spec fn view(&self) -> Seq<T> {
        self.messages@
    }
}

impl<T> Default for Dispatcher<T> {
    fn default() -> (r: Self)
        ensures
            r@ == Seq::<T>::empty(),
    {
        Dispatcher::new()
    }
}

impl<T> Dispatcher<T> {
    pub fn new() -> (r: Self)
        ensures
            r@ == Seq::<T>::empty(),
    {
        Dispatcher { messages: VecDeque::new() }
    }

    /// Queues `message` behind every message already queued.
    pub fn put(&mut self, message: T)
        ensures
            final(self)@ == old(self)@.push(message),
    {
        self.messages.push_back(message);
    }

    /// The number of queued messages.
    pub fn len(&self) -> (r: usize)
        ensures
            r == self@.len(),
    {
        self.messages.len()
    }

    /// Takes the message queued first.
    pub fn get(&mut self) -> (r: T)
        requires
            old(self)@.len() > 0,
        ensures
            r == old(self)@[0],
            final(self)@ == old(self)@.drop_first(),
    {
        self.messages.pop_front().unwrap()
    }
}

} // verus!
