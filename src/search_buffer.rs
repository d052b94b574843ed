//! Buffers of pending items for a traversal: a stack gives depth-first
//! order, a queue breadth-first order.
use vstd::prelude::*;

use std::collections::VecDeque;

verus! {

/// Which pending item a buffer hands out next.
#[derive(Debug, Clone, Copy, PartialEq, Eq, Structural)]
pub enum Discipline {
    /// The most recently enlisted item (a stack).
    Lifo,
    /// The earliest enlisted item (a queue).
    Fifo,
}

/// The position, among `len` pending items kept in order of enlisting,
/// of the item that `d` hands out next.
pub open spec fn next_index(d: Discipline, len: nat) -> int {
    match d {
        Discipline::Lifo => len - 1,
        Discipline::Fifo => 0,
    }
}

/// A buffer of pending items used during a traversal.
pub trait SearchBuffer<T>: Sized {
    /// The pending items, in the order they were enlisted.
    spec fn pending(&self) -> Seq<T>;

    /// The order in which this buffer hands items out.
    spec fn discipline(&self) -> Discipline;

    /// Adds an item.
    fn enlist(&mut self, val: T)
        ensures
            final(self).pending() == old(self).pending().push(val),
            final(self).discipline() == old(self).discipline(),
    ;

    /// Removes and returns the next item, `None` when the buffer is empty.
    fn get_next(&mut self) -> (r: Option<T>)
        ensures
            final(self).discipline() == old(self).discipline(),
            old(self).pending().len() == 0 ==> r is None && final(self).pending() == old(self).pending(),
            old(self).pending().len() > 0 ==> {
                let k = next_index(old(self).discipline(), old(self).pending().len());
                &&& r == Some(old(self).pending()[k])
                &&& final(self).pending() == old(self).pending().remove(k)
            },
    ;

    /// Whether no item is pending.
    fn is_empty(&self) -> (r: bool)
        ensures
            r == (self.pending().len() == 0),
    ;
}

impl<T> SearchBuffer<T> for Vec<T> {
    open spec fn pending(&self) -> Seq<T> {
        self@
    }

    open spec fn discipline(&self) -> Discipline {
        Discipline::Lifo
    }

    fn enlist(&mut self, val: T) {
        self.push(val);
    }

    fn get_next(&mut self) -> (r: Option<T>) {
        let r = self.pop();
        proof {
            if old(self)@.len() > 0 {
                assert(old(self)@.remove(old(self)@.len() - 1) =~= self@);
            }
        }
        r
    }

    fn is_empty(&self) -> (r: bool) {
        self.len() == 0
    }
}

impl<T> SearchBuffer<T> for VecDeque<T> {
    open spec fn pending(&self) -> Seq<T> {
        self@
    }

    open spec fn discipline(&self) -> Discipline {
        Discipline::Fifo
    }

    fn enlist(&mut self, val: T) {
        self.push_back(val);
    }

    fn get_next(&mut self) -> (r: Option<T>) {
        let r = self.pop_front();
        proof {
            if old(self)@.len() > 0 {
                assert(old(self)@.remove(0) =~= self@);
            }
        }
        r
    }

    fn is_empty(&self) -> (r: bool) {
        self.len() == 0
    }
}

} // verus!
