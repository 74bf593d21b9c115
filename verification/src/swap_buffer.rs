use vstd::prelude::*;

verus! {

#[derive(Clone, Copy, PartialEq, Eq, Debug, Structural)]
enum Side {
    Left,
    Right,
}

/// Two buffers, one of which is in use (the primary one); `switch` swaps their roles.
#[derive(Clone, Debug)]
pub struct SwapBuffer<T> {
    left: Vec<T>,
    right: Vec<T>,
    primary: Side,
}

impl<T> View for SwapBuffer<T> {
    /// The primary buffer's contents, then the other buffer's.
    type V = (Seq<T>, Seq<T>);

    closed spec fn view(&self) -> (Seq<T>, Seq<T>) {
        match self.primary {
            Side::Left => (self.left@, self.right@),
            Side::Right => (self.right@, self.left@),
        }
    }
}

impl<T> SwapBuffer<T> {
    /// Two empty buffers.
    pub fn new() -> (b: Self)
        ensures
            b@.0 == Seq::<T>::empty(),
            b@.1 == Seq::<T>::empty(),
    {
        Self { left: Vec::new(), right: Vec::new(), primary: Side::Left }
    }

    /// Two empty buffers, each with room for `capacity` items.
    pub fn with_capacity(capacity: usize) -> (b: Self)
        ensures
            b@.0 == Seq::<T>::empty(),
            b@.1 == Seq::<T>::empty(),
    {
        Self {
            left: Vec::with_capacity(capacity),
            right: Vec::with_capacity(capacity),
            primary: Side::Left,
        }
    }

    /// Make the other buffer the primary one.
    pub fn switch(&mut self)
        ensures
            final(self)@ == (old(self)@.1, old(self)@.0),
    {
        self.primary = match self.primary {
            Side::Left => Side::Right,
            Side::Right => Side::Left,
        }
    }

    /// The primary buffer.
    pub fn deref(&self) -> (v: &Vec<T>)
        ensures
            v@ == self@.0,
    {
        match self.primary {
            Side::Left => &self.left,
            Side::Right => &self.right,
        }
    }

    /// The primary buffer, to change it.
    pub fn deref_mut(&mut self) -> (v: &mut Vec<T>)
        ensures
            v@ == old(self)@.0,
            final(self)@ == (final(v)@, old(self)@.1),
    {
        match self.primary {
            Side::Left => &mut self.left,
            Side::Right => &mut self.right,
        }
    }
}

/// Switching twice gives back the buffers as they were.
pub proof fn lemma_switch_twice<T>(b0: SwapBuffer<T>, b1: SwapBuffer<T>, b2: SwapBuffer<T>)
    requires
        b1@ == (b0@.1, b0@.0),
        b2@ == (b1@.1, b1@.0),
    ensures
        b2@ == b0@,
{
}

} // verus!
