//! Short lists kept in a `SmallVec`: object ids, and the scheduler's thread
//! records.
use crate::scheduler::Thread;
use smallvec::SmallVec;
use vstd::prelude::*;

verus! {

/// A list of ids with room for four of them inline.
#[verifier::external_body]
pub struct IdList {
    items: SmallVec<[u64; 4]>,
}

/// The ids held by a list, front first.
pub uninterp spec fn id_list_items(v: IdList) -> Seq<u64>;

impl View for IdList {
    type V = Seq<u64>;

    open spec fn view(&self) -> Seq<u64> {
        id_list_items(*self)
    }
}

impl IdList {
    /// Relies on `SmallVec::new`: the new vector holds no item.
    #[verifier::external_body]
    pub(crate) fn new() -> (r: IdList)
        ensures
            id_list_items(r) == Seq::<u64>::empty(),
    {
        IdList { items: SmallVec::new() }
    }

    /// Relies on `SmallVec::len`: the number of items held.
    #[verifier::external_body]
    pub(crate) fn len(&self) -> (r: usize)
        ensures
            r == id_list_items(*self).len(),
    {
        self.items.len()
    }

    /// Relies on indexing a `SmallVec`: the item at position `i`; indexing
    /// panics out of range.
    #[verifier::external_body]
    pub(crate) fn get(&self, i: usize) -> (r: u64)
        requires
            i < id_list_items(*self).len(),
        ensures
            r == id_list_items(*self)[i as int],
    {
        self.items[i]
    }

    /// Relies on `SmallVec::push`: the item is appended at the back. (Its
    /// length cannot overflow here: a buffer of `u64` items is limited
    /// to `isize::MAX` bytes, far fewer than `usize::MAX` items.)
    #[verifier::external_body]
    pub(crate) fn push(&mut self, id: u64)
        ensures
            id_list_items(*final(self)) == id_list_items(*old(self)).push(id),
    {
        self.items.push(id)
    }

    /// Relies on `SmallVec::insert`: the item lands at position `i` and those
    /// after it move one place back. It panics where `i` exceeds the length.
    #[verifier::external_body]
    pub(crate) fn insert(&mut self, i: usize, id: u64)
        requires
            i <= id_list_items(*old(self)).len(),
        ensures
            id_list_items(*final(self)) == id_list_items(*old(self)).insert(i as int, id),
    {
        self.items.insert(i, id)
    }

    /// Relies on `SmallVec::remove`: the item at position `i` is taken out and
    /// those after it move one place forward. It panics where `i` is out of
    /// range.
    #[verifier::external_body]
    pub(crate) fn remove(&mut self, i: usize) -> (r: u64)
        requires
            i < id_list_items(*old(self)).len(),
        ensures
            r == id_list_items(*old(self))[i as int],
            id_list_items(*final(self)) == id_list_items(*old(self)).remove(i as int),
    {
        self.items.remove(i)
    }
}

/// A list of thread records with room for four of them inline.
#[verifier::external_body]
pub struct ThreadList {
    items: SmallVec<[Thread; 4]>,
}

/// The thread records held by a list, front first.
pub uninterp spec fn thread_list_items(v: ThreadList) -> Seq<Thread>;

impl View for ThreadList {
    type V = Seq<Thread>;

    open spec fn view(&self) -> Seq<Thread> {
        thread_list_items(*self)
    }
}

impl ThreadList {
    /// Relies on `SmallVec::new`: the new vector holds no item.
    #[verifier::external_body]
    pub(crate) fn new() -> (r: ThreadList)
        ensures
            thread_list_items(r) == Seq::<Thread>::empty(),
    {
        ThreadList { items: SmallVec::new() }
    }

    /// Relies on `SmallVec::len`: the number of items held.
    #[verifier::external_body]
    pub(crate) fn len(&self) -> (r: usize)
        ensures
            r == thread_list_items(*self).len(),
    {
        self.items.len()
    }

    /// Relies on indexing a `SmallVec`: a copy of the item at position `i`;
    /// indexing panics out of range.
    #[verifier::external_body]
    pub(crate) fn get(&self, i: usize) -> (r: Thread)
        requires
            i < thread_list_items(*self).len(),
        ensures
            r == thread_list_items(*self)[i as int],
    {
        self.items[i]
    }

    /// Relies on mutable indexing of a `SmallVec`: the item at position `i`
    /// is replaced; indexing panics out of range.
    #[verifier::external_body]
    pub(crate) fn set(&mut self, i: usize, t: Thread)
        requires
            i < thread_list_items(*old(self)).len(),
        ensures
            thread_list_items(*final(self)) == thread_list_items(*old(self)).update(i as int, t),
    {
        self.items[i] = t;
    }

    /// Relies on `SmallVec::push`: the item is appended at the back.
    #[verifier::external_body]
    pub(crate) fn push(&mut self, t: Thread)
        ensures
            thread_list_items(*final(self)) == thread_list_items(*old(self)).push(t),
    {
        self.items.push(t)
    }

    /// Relies on `SmallVec::remove`: the item at position `i` is taken out and
    /// those after it move one place forward. It panics where `i` is out of
    /// range.
    #[verifier::external_body]
    pub(crate) fn remove(&mut self, i: usize) -> (r: Thread)
        requires
            i < thread_list_items(*old(self)).len(),
        ensures
            r == thread_list_items(*old(self))[i as int],
            thread_list_items(*final(self)) == thread_list_items(*old(self)).remove(i as int),
    {
        self.items.remove(i)
    }
}

} // verus!
