use crate::fib_heap::{has_live, is_lower_bound, keys_of, FibonacciHeap, HeapError, Item};
use vstd::prelude::*;

verus! {

/// Something that carries a priority key.
pub trait PriorityItem {
    spec fn priority(&self) -> u64;

    fn get_key(&self) -> (r: u64)
        ensures
            r == self.priority(),
    ;
}

/// The operations of a mergeable priority queue whose nodes are named by slot.
pub trait HeapOperations: Sized {
    spec fn well_formed(&self) -> bool;

    /// Slot `i` holds `Some(key)` while node `i` is in the queue.
    spec fn contents(&self) -> Seq<Option<u64>>;

    fn find_min(&self) -> (r: Result<u64, HeapError>)
        requires
            self.well_formed(),
        ensures
            r is Err <==> !has_live(self.contents()),
            r is Err ==> r == Err::<u64, HeapError>(HeapError::EmptyHeap),
            r matches Ok(k) ==> is_lower_bound(self.contents(), k) && keys_of(self.contents()).contains(k),
    ;

    fn delete_min(&mut self) -> (r: Result<u64, HeapError>)
        requires
            old(self).well_formed(),
        ensures
            final(self).well_formed(),
            r is Err <==> !has_live(old(self).contents()),
            r is Err ==> r == Err::<u64, HeapError>(HeapError::EmptyHeap) && final(self).contents()
                == old(self).contents(),
            r matches Ok(k) ==> is_lower_bound(old(self).contents(), k) && exists|h: int|
                0 <= h < old(self).contents().len() && old(self).contents()[h] == Some(k)
                    && final(self).contents() == old(self).contents().update(h, None),
    ;

    fn insert(&mut self, key: u64) -> (h: usize)
        requires
            old(self).well_formed(),
            old(self).contents().len() < usize::MAX,
        ensures
            final(self).well_formed(),
            h == old(self).contents().len(),
            final(self).contents() == old(self).contents().push(Some(key)),
    ;

    fn decrease_key(&mut self, h: usize, key: u64) -> (r: Result<(), HeapError>)
        requires
            old(self).well_formed(),
            h < old(self).contents().len(),
            old(self).contents()[h as int] is Some,
        ensures
            final(self).well_formed(),
            r is Err <==> key > old(self).contents()[h as int]->Some_0,
            r is Err ==> r == Err::<(), HeapError>(HeapError::KeyIncreaseRejected)
                && final(self).contents() == old(self).contents(),
            r is Ok ==> final(self).contents() == old(self).contents().update(h as int, Some(key)),
    ;

    fn meld(self, other: Self) -> (r: Self)
        requires
            self.well_formed(),
            other.well_formed(),
            self.contents().len() + other.contents().len() <= usize::MAX,
        ensures
            r.well_formed(),
            r.contents() == self.contents() + other.contents(),
    ;
}

impl PriorityItem for Item {
    open spec fn priority(&self) -> u64 {
        self.spec_key()
    }

    fn get_key(&self) -> (r: u64) {
        self.key()
    }
}

impl HeapOperations for FibonacciHeap {
    open spec fn well_formed(&self) -> bool {
        self.wf()
    }

    open spec fn contents(&self) -> Seq<Option<u64>> {
        self@
    }

    fn find_min(&self) -> (r: Result<u64, HeapError>) {
        FibonacciHeap::find_min(self)
    }

    fn delete_min(&mut self) -> (r: Result<u64, HeapError>) {
        FibonacciHeap::delete_min(self)
    }

    fn insert(&mut self, key: u64) -> (h: usize) {
        FibonacciHeap::insert(self, key)
    }

    fn decrease_key(&mut self, h: usize, key: u64) -> (r: Result<(), HeapError>) {
        FibonacciHeap::decrease_key(self, h, key)
    }

    fn meld(self, other: Self) -> (r: Self) {
        FibonacciHeap::meld(self, other)
    }
}

} // verus!
