//! A first-in first-out queue of cells with a fixed capacity, stored in a
//! ring buffer; flood fill uses it as its work list.

use vstd::prelude::*;
use crate::mapping::{Coord, MazeError};

verus! {

pub(crate) struct FixedQueue<const CAP: usize> {
    data: [Coord; CAP],
    head: usize,
    tail: usize,
    len: usize,
}

impl<const CAP: usize> FixedQueue<CAP> {
    /// Storage slot of the `i`-th queued element, counted from the head.
    closed spec fn slot(self, i: int) -> int {
        if self.head + i < CAP {
            self.head + i
        } else {
            self.head + i - CAP
        }
    }

    pub(crate) closed spec fn wf(self) -> bool {
        &&& self.len <= CAP
        &&& CAP > 0 ==> self.head < CAP && self.tail == self.slot(self.len as int)
        &&& CAP == 0 ==> self.head == 0 && self.tail == 0
    }
}

impl<const CAP: usize> View for FixedQueue<CAP> {
    type V = Seq<Coord>;

    /// The queued cells, oldest first.
    closed spec fn view(&self) -> Seq<Coord> {
        Seq::new(self.len as nat, |i: int| self.data@[self.slot(i)])
    }
}

impl<const CAP: usize> FixedQueue<CAP> {
    pub(crate) fn new() -> (q: Self)
        ensures
            q.wf(),
            q@ == Seq::<Coord>::empty(),
    {
        let q = Self { data: [Coord::new(0, 0);CAP], head: 0, tail: 0, len: 0 };
        assert(q@ =~= Seq::<Coord>::empty());
        q
    }

    /// Appends `value` at the back, or reports `QueueFull` and changes
    /// nothing when `CAP` cells are already queued.
    pub(crate) fn push(&mut self, value: Coord) -> (r: Result<(), MazeError>)
        requires
            old(self).wf(),
        ensures
            final(self).wf(),
            final(self)@.len() <= CAP,
            old(self)@.len() < CAP <==> r is Ok,
            r is Ok ==> final(self)@ == old(self)@.push(value),
            r is Err ==> r == Err::<(), MazeError>(MazeError::QueueFull) && final(self)@ == old(
                self,
            )@ && old(self)@.len() == CAP,
    {
        if self.len == CAP {
            return Err(MazeError::QueueFull);
        }
        self.data[self.tail] = value;
        proof {
            assert((self.tail + 1) % (CAP as int) == if self.tail + 1 < CAP {
                self.tail + 1
            } else {
                0
            }) by (nonlinear_arith)
                requires
                    self.tail + 1 <= CAP,
                    0 <= self.tail,
            ;
        }
        self.tail = (self.tail + 1) % CAP;
        self.len += 1;
        assert(self@ =~= old(self)@.push(value));
        Ok(())
    }

    /// Removes and returns the oldest queued cell, if any.
    pub(crate) fn pop(&mut self) -> (r: Option<Coord>)
        requires
            old(self).wf(),
        ensures
            final(self).wf(),
            old(self)@.len() == 0 ==> r is None && final(self)@ == old(self)@,
            old(self)@.len() > 0 ==> r == Some(old(self)@[0]) && final(self)@ == old(self)@.drop_first(),
    {
        if self.len == 0 {
            return None;
        }
        let value = self.data[self.head];
        proof {
            assert((self.head + 1) % (CAP as int) == if self.head + 1 < CAP {
                self.head + 1
            } else {
                0
            }) by (nonlinear_arith)
                requires
                    self.head + 1 <= CAP,
                    0 <= self.head,
            ;
        }
        self.head = (self.head + 1) % CAP;
        self.len -= 1;
        assert(self@ =~= old(self)@.drop_first());
        Some(value)
    }
}

} // verus!
