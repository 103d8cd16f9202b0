//! The id allocator: issues small positive integers and recycles released
//! ones through a FIFO pool, so that the oldest released id is reused first.

use vstd::prelude::*;
use std::collections::VecDeque;

verus! {

/// Issues client ids. A fresh id is one above the highest issued so far;
/// a released id waits in a FIFO pool and is handed out again in release
/// order, before any fresh id is minted.
pub struct IdAlloc {
    next: usize,
    free: VecDeque<usize>,
}

impl IdAlloc {
    /// The highest id issued so far; ids count from 1.
    pub closed spec fn next_counter(&self) -> usize {
        self.next
    }

    /// The pool of released ids, oldest release first.
    pub closed spec fn free_list(&self) -> Seq<usize> {
        self.free@
    }

    /// Every pooled id was issued, and no id is pooled twice.
    pub open spec fn wf(&self) -> bool {
        &&& self.free_list().no_duplicates()
        &&& forall|j: int|
            0 <= j < self.free_list().len() ==> 1 <= #[trigger] self.free_list()[j]
                <= self.next_counter()
    }

    pub fn new() -> (r: Self)
        ensures
            r.wf(),
            r.next_counter() == 0,
            r.free_list() == Seq::<usize>::empty(),
    {
        IdAlloc { next: 0, free: VecDeque::new() }
    }

    /// Whether another id can be handed out: one is pooled, or the
    /// counter has room for a fresh one.
    pub fn has_capacity(&self) -> (r: bool)
        ensures
            r == (self.free_list().len() > 0 || self.next_counter() < usize::MAX),
    {
        self.free.len() > 0 || self.next < usize::MAX
    }

    /// Hand out an id: the oldest pooled one if any, else a fresh one.
    pub fn allocate(&mut self) -> (id: usize)
        requires
            old(self).wf(),
            old(self).free_list().len() > 0 || old(self).next_counter() < usize::MAX,
        ensures
            final(self).wf(),
            1 <= id <= final(self).next_counter(),
            !final(self).free_list().contains(id),
            old(self).free_list().len() > 0 ==> {
                &&& id == old(self).free_list()[0]
                &&& final(self).free_list() == old(self).free_list().drop_first()
                &&& final(self).next_counter() == old(self).next_counter()
            },
            old(self).free_list().len() == 0 ==> {
                &&& id == old(self).next_counter() + 1
                &&& final(self).next_counter() == old(self).next_counter() + 1
                &&& final(self).free_list() == old(self).free_list()
            },
    {
        match self.free.pop_front() {
            Some(id) => id,
            None => {
                self.next = self.next + 1;
                self.next
            },
        }
    }

    /// Return a released id to the back of the pool.
    pub fn release(&mut self, id: usize)
        requires
            old(self).wf(),
            !old(self).free_list().contains(id),
            1 <= id <= old(self).next_counter(),
        ensures
            final(self).wf(),
            final(self).free_list() == old(self).free_list().push(id),
            final(self).next_counter() == old(self).next_counter(),
    {
        self.free.push_back(id);
    }
}

} // verus!
