//! Per-process handle tables: small integer ids that name kernel objects.
use crate::os_error::{Module, Reason, ResultCode};
use vstd::prelude::*;

verus! {

/// Number of slots in a handle table.
pub const MAX_HANDLES: usize = 256;

/// A reference to a kernel object, by the object's id, or `Invalid`.
#[derive(Clone, Copy, Debug, PartialEq, Eq, Structural)]
pub enum Handle {
    Invalid,
    Port(u64),
    ServerSession(u64),
    ClientSession(u64),
    Event(u64),
    Thread(u64),
    Process(u64),
}

/// What id `id` names in the slots `s`: out-of-range ids name nothing.
pub open spec fn handle_at(s: Seq<Handle>, id: u32) -> Handle {
    if (id as int) < s.len() {
        s[id as int]
    } else {
        Handle::Invalid
    }
}

/// Whether some slot of `s` is vacant.
pub open spec fn has_free(s: Seq<Handle>) -> bool {
    exists|i: int| 0 <= i < s.len() && s[i] is Invalid
}

/// Whether `id` is the lowest vacant slot of `s`.
pub open spec fn is_first_free(s: Seq<Handle>, id: int) -> bool {
    &&& 0 <= id < s.len()
    &&& s[id] is Invalid
    &&& forall|j: int| 0 <= j < id ==> !(s[j] is Invalid)
}

/// What closing `id` reports: an invalid-handle error where `id` names
/// nothing.
pub open spec fn close_result(s: Seq<Handle>, id: u32) -> ResultCode {
    if handle_at(s, id) is Invalid {
        ResultCode::Error(Module::Kernel, Reason::InvalidHandle)
    } else {
        ResultCode::Success
    }
}

/// The slots after closing `id`.
pub open spec fn after_close(s: Seq<Handle>, id: u32) -> Seq<Handle> {
    if handle_at(s, id) is Invalid {
        s
    } else {
        s.update(id as int, Handle::Invalid)
    }
}

/// A fixed table of `MAX_HANDLES` slots; a slot's index is the handle value
/// user space sees.
pub struct HandleTable {
    handles: Vec<Handle>,
}

impl View for HandleTable {
    type V = Seq<Handle>;

    closed spec fn view(&self) -> Seq<Handle> {
        self.handles@
    }
}

impl HandleTable {
    /// The table has its fixed number of slots.
    pub open spec fn wf(&self) -> bool {
        self@.len() == MAX_HANDLES
    }

    /// A table with every slot vacant.
    pub fn new() -> (r: HandleTable)
        ensures
            r.wf(),
            forall|i: int| 0 <= i < MAX_HANDLES ==> #[trigger] r@[i] == Handle::Invalid,
    {
        let mut handles: Vec<Handle> = Vec::new();
        while handles.len() < MAX_HANDLES
            invariant
                handles@.len() <= MAX_HANDLES,
                forall|i: int| 0 <= i < handles@.len() ==> #[trigger] handles@[i] == Handle::Invalid,
            decreases MAX_HANDLES - handles@.len(),
        {
            handles.push(Handle::Invalid);
        }
        HandleTable { handles }
    }

    /// The object that `handle` names; `Invalid` for a vacant slot or an id
    /// out of range.
    pub fn get_object(&self, handle: u32) -> (r: Handle)
        requires
            self.wf(),
        ensures
            r == handle_at(self@, handle),
    {
        if (handle as usize) < MAX_HANDLES {
            self.handles[handle as usize]
        } else {
            Handle::Invalid
        }
    }

    /// Stores `handle_obj` in the lowest vacant slot and returns its index.
    pub fn get_handle(&mut self, handle_obj: Handle) -> (r: u32)
        requires
            old(self).wf(),
            has_free(old(self)@),
        ensures
            final(self).wf(),
            is_first_free(old(self)@, r as int),
            final(self)@ == old(self)@.update(r as int, handle_obj),
    {
        let mut index: usize = 0;
        while index < MAX_HANDLES
            invariant
                self@ == old(self)@,
                self.wf(),
                index <= MAX_HANDLES,
                forall|j: int| 0 <= j < index ==> !(#[trigger] self@[j] is Invalid),
            decreases MAX_HANDLES - index,
        {
            match self.handles[index] {
                Handle::Invalid => {
                    self.handles.set(index, handle_obj);
                    return index as u32;
                },
                _ => {},
            }
            index = index + 1;
        }
        proof {
            let i = choose|i: int| 0 <= i < old(self)@.len() && old(self)@[i] is Invalid;
            assert(!(self@[i] is Invalid));
        }
        0
    }

    /// Whether every slot is taken, so that `get_handle` cannot be called.
    pub fn is_full(&self) -> (r: bool)
        requires
            self.wf(),
        ensures
            r == !has_free(self@),
    {
        let mut index: usize = 0;
        while index < MAX_HANDLES
            invariant
                self.wf(),
                index <= MAX_HANDLES,
                forall|j: int| 0 <= j < index ==> !(#[trigger] self@[j] is Invalid),
            decreases MAX_HANDLES - index,
        {
            if self.handles[index] == Handle::Invalid {
                return false;
            }
            index = index + 1;
        }
        true
    }

    /// Empties the slot of `handle`; an id out of range or already vacant is
    /// an invalid-handle error.
    pub fn close(&mut self, handle: u32) -> (r: ResultCode)
        requires
            old(self).wf(),
        ensures
            final(self).wf(),
            r == close_result(old(self)@, handle),
            final(self)@ == after_close(old(self)@, handle),
    {
        if (handle as usize) < MAX_HANDLES {
            match self.handles[handle as usize] {
                Handle::Invalid => ResultCode::new(Module::Kernel, Reason::InvalidHandle),
                _ => {
                    self.handles.set(handle as usize, Handle::Invalid);
                    ResultCode::Success
                },
            }
        } else {
            ResultCode::new(Module::Kernel, Reason::InvalidHandle)
        }
    }
}

/// Closing a handle right after inserting an object into the lowest vacant
/// slot succeeds, afterwards the id names nothing, and the table is as it
/// was before the insert.
pub proof fn lemma_close_after_insert(s: Seq<Handle>, x: Handle, id: u32)
    requires
        s.len() == MAX_HANDLES,
        x != Handle::Invalid,
        is_first_free(s, id as int),
    ensures
        close_result(s.update(id as int, x), id) == ResultCode::Success,
        handle_at(after_close(s.update(id as int, x), id), id) == Handle::Invalid,
        after_close(s.update(id as int, x), id) == s,
{
    assert(after_close(s.update(id as int, x), id) =~= s);
}

} // verus!
