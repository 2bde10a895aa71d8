//! Synchronous port-based IPC: named ports, client/server session pairs and
//! request/reply rendezvous, with the system calls that drive them.
//!
//! Kernel objects live in arenas and are named by their index there. A
//! system call that blocks says so in its `Step`: the context switch to make
//! and, where it is known already, what the call returns once the caller
//! runs again.
use crate::handle_table::{Handle, HandleTable, has_free, is_first_free, handle_at};
use crate::id_list::IdList;
use crate::scheduler::{Scheduler, Switch, Thread, has_thread, ids_of, lemma_process_of, process_of, same_processes, suspend_post};
use crate::waiter::{WaitEntry, Waiter, first_blocked, resume, lemma_woken_others, signal_post, lemma_signal_keeps_current};
use std::collections::BTreeMap;
use vstd::prelude::*;

verus! {

broadcast use vstd::laws_cmp::group_laws_cmp, vstd::std_specs::btree::group_btree_axioms;

/// The most handles one receive call can wait on.
pub const MAX_WAIT_HANDLES: usize = 128;

/// A rendezvous point: connecting clients queue a server session here until
/// the server accepts it.
pub struct Port {
    pub wait: Waiter,
    pub queue: IdList,
}

/// The server end of a session: the client threads whose requests wait for
/// service, in arrival order, and the one being served.
pub struct ServerSession {
    pub wait: Waiter,
    pub connect_wait: Waiter,
    pub queue: IdList,
    pub client: Option<u64>,
    pub client_thread: Option<u64>,
}

/// The client end of a session.
pub struct ClientSession {
    pub wait: Waiter,
    pub server: u64,
}

/// A thread parked until a port with `tag` is created.
#[derive(Clone, Copy, Debug, PartialEq, Eq, Structural)]
pub struct PortWaiter {
    pub tag: u64,
    pub thread: u64,
}

/// How a system call ends for its caller.
pub enum Step<T> {
    /// The call returns this value at once.
    Ready(T),
    /// The caller blocks, and the call returns this value once it runs again.
    Blocked(T, Switch),
    /// The caller blocks; the call is finished once it runs again.
    Parked(Switch),
    /// The caller blocks; once it runs again, the call is finished from the
    /// kernel object with this index.
    Pending(u64, Switch),
}

/// The state that IPC system calls work on: the scheduler, each process's
/// handle table, the object arenas, the named ports and the threads waiting
/// for a port.
pub struct Kernel {
    pub scheduler: Scheduler,
    pub handle_tables: Vec<HandleTable>,
    pub ports: Vec<Port>,
    pub server_sessions: Vec<ServerSession>,
    pub client_sessions: Vec<ClientSession>,
    pub port_list: BTreeMap<u64, u64>,
    pub port_waiters: Vec<PortWaiter>,
    pub ipc_buffers: BTreeMap<u64, Vec<u8>>,
}

/// The IPC buffer of `thread` in `buffers`; empty where it has none.
pub open spec fn buffer_of(buffers: Map<u64, Vec<u8>>, thread: u64) -> Seq<u8> {
    if buffers.contains_key(thread) {
        buffers[thread]@
    } else {
        Seq::empty()
    }
}

/// Whether every thread in `threads` belongs to a process below `n`.
pub open spec fn processes_below(threads: Seq<Thread>, n: int) -> bool {
    forall|j: int| 0 <= j < threads.len() ==> (#[trigger] threads[j]).process < n
}

/// A copy of `src`.
fn copy_bytes(src: &Vec<u8>) -> (r: Vec<u8>)
    ensures
        r@ == src@,
{
    let mut r: Vec<u8> = Vec::new();
    let mut i: usize = 0;
    while i < src.len()
        invariant
            i <= src@.len(),
            r@ == src@.subrange(0, i as int),
        decreases src@.len() - i,
    {
        r.push(src[i]);
        i = i + 1;
        proof {
            assert(r@ =~= src@.subrange(0, i as int));
        }
    }
    proof {
        assert(src@.subrange(0, src@.len() as int) =~= src@);
    }
    r
}

/// Whether a waiter in `w` before position `i` waits for `tag` on behalf of
/// thread `x`.
pub open spec fn parked_before(w: Seq<PortWaiter>, tag: u64, x: u64, i: int) -> bool {
    exists|j: int| 0 <= j < i && #[trigger] w[j] == PortWaiter { tag, thread: x }
}

impl Kernel {
    /// The invariant: the scheduler and every handle table are well formed,
    /// every thread's process has a handle table, named ports exist, the
    /// sessions queued on a port exist, and each session's other end exists.
    pub open spec fn wf(&self) -> bool {
        &&& self.scheduler.wf()
        &&& processes_below(self.scheduler.threads@, self.handle_tables@.len() as int)
        &&& forall|i: int| 0 <= i < self.handle_tables@.len() ==> (#[trigger] self.handle_tables@[i]).wf()
        &&& forall|t: u64| #[trigger] self.port_list@.contains_key(t) ==> self.port_list@[t] < self.ports@.len()
        &&& forall|p: int, j: int|
            0 <= p < self.ports@.len() && 0 <= j < self.ports@[p].queue@.len()
                ==> #[trigger] self.ports@[p].queue@[j] < self.server_sessions@.len()
        &&& forall|c: int| 0 <= c < self.client_sessions@.len() ==> (#[trigger] self.client_sessions@[c]).server < self.server_sessions@.len()
        &&& forall|s: int| 0 <= s < self.server_sessions@.len() ==> match (#[trigger] self.server_sessions@[s]).client {
            Some(c) => c < self.client_sessions@.len(),
            None => true,
        }
    }

    /// The process of the running thread: the index of its handle table.
    pub open spec fn caller(&self) -> int {
        process_of(self.scheduler.threads@, self.scheduler.current()) as int
    }

    /// The handle table of the running thread's process.
    pub open spec fn caller_table(&self) -> Seq<Handle> {
        self.handle_tables@[self.caller()]@
    }

    /// Whether a thread runs and its process's table has a vacant slot.
    pub open spec fn caller_ready(&self) -> bool {
        &&& self.scheduler.runnable().len() > 0
        &&& has_free(self.caller_table())
    }

    /// The running thread's process has a handle table.
    pub proof fn lemma_caller_has_table(&self)
        requires
            self.wf(),
            self.scheduler.runnable().len() > 0,
        ensures
            0 <= self.caller() < self.handle_tables@.len(),
    {
        let s = self.scheduler;
        let c = s.current();
        assert(s.runnable()[s.cur()] == c);
        assert(ids_of(s.threads@).contains(s.runnable()[s.cur()]));
        let j = choose|j: int| 0 <= j < ids_of(s.threads@).len() && ids_of(s.threads@)[j] == c;
        assert(has_thread(s.threads@, c, j));
        lemma_process_of(s.threads@, c, j);
    }

    /// A kernel with no thread, process or object.
    pub fn new() -> (r: Kernel)
        ensures
            r.wf(),
            r.scheduler.runnable().len() == 0,
            r.handle_tables@.len() == 0,
            r.ports@.len() == 0,
            r.server_sessions@.len() == 0,
            r.client_sessions@.len() == 0,
            r.port_list@ == Map::<u64, u64>::empty(),
            r.port_waiters@.len() == 0,
    {
        Kernel {
            scheduler: Scheduler::new(),
            handle_tables: Vec::new(),
            ports: Vec::new(),
            server_sessions: Vec::new(),
            client_sessions: Vec::new(),
            port_list: BTreeMap::new(),
            port_waiters: Vec::new(),
            ipc_buffers: BTreeMap::new(),
        }
    }

    /// Sets the IPC buffer of `thread` to `data`.
    pub fn write_ipc_buffer(&mut self, thread: u64, data: Vec<u8>)
        requires
            old(self).wf(),
        ensures
            final(self).wf(),
            buffer_of(final(self).ipc_buffers@, thread) == data@,
            forall|t: u64| t != thread ==> #[trigger] buffer_of(final(self).ipc_buffers@, t) == buffer_of(old(self).ipc_buffers@, t),
            final(self).scheduler == old(self).scheduler,
            final(self).handle_tables@ == old(self).handle_tables@,
            final(self).ports@ == old(self).ports@,
            final(self).server_sessions@ == old(self).server_sessions@,
            final(self).client_sessions@ == old(self).client_sessions@,
            final(self).port_list@ == old(self).port_list@,
            final(self).port_waiters@ == old(self).port_waiters@,
    {
        self.ipc_buffers.insert(thread, data);
    }

    /// The contents of the IPC buffer of `thread`; empty where it has none.
    pub fn read_ipc_buffer(&self, thread: u64) -> (r: Vec<u8>)
        ensures
            r@ == buffer_of(self.ipc_buffers@, thread),
    {
        match self.ipc_buffers.get(&thread) {
            Some(b) => copy_bytes(b),
            None => Vec::new(),
        }
    }

    /// Copies the IPC buffer of `from` into that of `to`.
    fn copy_ipc_buffer(&mut self, from: u64, to: u64)
        ensures
            buffer_of(final(self).ipc_buffers@, to) == buffer_of(old(self).ipc_buffers@, from),
            forall|t: u64| t != to ==> #[trigger] buffer_of(final(self).ipc_buffers@, t) == buffer_of(old(self).ipc_buffers@, t),
            final(self).scheduler == old(self).scheduler,
            final(self).handle_tables@ == old(self).handle_tables@,
            final(self).ports@ == old(self).ports@,
            final(self).server_sessions@ == old(self).server_sessions@,
            final(self).client_sessions@ == old(self).client_sessions@,
            final(self).port_list@ == old(self).port_list@,
            final(self).port_waiters@ == old(self).port_waiters@,
    {
        let data = self.read_ipc_buffer(from);
        self.ipc_buffers.insert(to, data);
    }

    /// Adds a process with an empty handle table and returns its id.
    pub fn create_process(&mut self) -> (r: u64)
        requires
            old(self).wf(),
        ensures
            final(self).wf(),
            r == old(self).handle_tables@.len(),
            final(self).handle_tables@.len() == old(self).handle_tables@.len() + 1,
            forall|i: int| 0 <= i < old(self).handle_tables@.len() ==> final(self).handle_tables@[i] == old(self).handle_tables@[i],
            forall|i: int| 0 <= i < crate::handle_table::MAX_HANDLES ==> #[trigger] final(self).handle_tables@[r as int]@[i] == Handle::Invalid,
            final(self).scheduler == old(self).scheduler,
    {
        let id = self.handle_tables.len() as u64;
        self.handle_tables.push(HandleTable::new());
        id
    }

    /// The index of the running thread's handle table.
    fn caller_index(&self) -> (r: usize)
        requires
            self.wf(),
            self.scheduler.runnable().len() > 0,
        ensures
            r == self.caller(),
            r < self.handle_tables@.len(),
    {
        proof {
            self.lemma_caller_has_table();
        }
        let p = crate::scheduler::get_current_process(&self.scheduler);
        assert(p < self.handle_tables.len());
        p as usize
    }

    /// Stores `h` in the lowest vacant slot of table `t`.
    fn install_handle(&mut self, t: usize, h: Handle) -> (r: u32)
        requires
            old(self).wf(),
            t < old(self).handle_tables@.len(),
            has_free(old(self).handle_tables@[t as int]@),
        ensures
            final(self).wf(),
            is_first_free(old(self).handle_tables@[t as int]@, r as int),
            final(self).handle_tables@.len() == old(self).handle_tables@.len(),
            final(self).handle_tables@[t as int]@ == old(self).handle_tables@[t as int]@.update(r as int, h),
            forall|i: int| 0 <= i < old(self).handle_tables@.len() && i != t ==> final(self).handle_tables@[i] == old(self).handle_tables@[i],
            final(self).scheduler == old(self).scheduler,
            final(self).ports@ == old(self).ports@,
            final(self).server_sessions@ == old(self).server_sessions@,
            final(self).client_sessions@ == old(self).client_sessions@,
            final(self).port_list@ == old(self).port_list@,
            final(self).port_waiters@ == old(self).port_waiters@,
            final(self).ipc_buffers@ == old(self).ipc_buffers@,
    {
        assert(self.handle_tables@[t as int].wf());
        let r = self.handle_tables[t].get_handle(h);
        proof {
            assert forall|i: int| 0 <= i < self.handle_tables@.len() implies (#[trigger] self.handle_tables@[i]).wf() by {
                if i != t {
                    assert(self.handle_tables@[i] == old(self).handle_tables@[i]);
                }
            }
        }
        r
    }
}

/// Wakes, with tag 0, every thread in `waiters` parked for `tag` that is
/// still blocked, and returns the waiters for other tags, in order.
fn wake_port_waiters(sched: &mut Scheduler, waiters: &Vec<PortWaiter>, tag: u64) -> (r: Vec<PortWaiter>)
    requires
        old(sched).wf(),
        0 < old(sched).runnable().len(),
        old(sched).runnable().len() + waiters@.len() < usize::MAX,
    ensures
        final(sched).wf(),
        r@ == waiters@.filter(|w: PortWaiter| w.tag != tag),
        final(sched).current() == old(sched).current(),
        final(sched).runnable().len() <= old(sched).runnable().len() + waiters@.len(),
        forall|x: u64| #[trigger] final(sched).runnable().contains(x) <==> (old(sched).runnable().contains(x)
            || (old(sched).is_suspended(x) && parked_before(waiters@, tag, x, waiters@.len() as int))),
        final(sched).threads@.len() == old(sched).threads@.len(),
        same_processes(old(sched).threads@, final(sched).threads@),
        forall|j: int|
            0 <= j < final(sched).threads@.len() ==> #[trigger] final(sched).threads@[j].id == old(sched).threads@[j].id,
        forall|j: int|
            0 <= j < final(sched).threads@.len() && !old(sched).runnable().contains(final(sched).threads@[j].id)
                && final(sched).runnable().contains(final(sched).threads@[j].id)
                ==> (#[trigger] final(sched).threads@[j]).return_register == 0,
{
    let ghost s0 = *old(sched);
    let ghost w = waiters@;
    let mut kept: Vec<PortWaiter> = Vec::new();
    let mut i: usize = 0;
    while i < waiters.len()
        invariant
            w == waiters@,
            s0 == *old(sched),
            sched.wf(),
            i <= w.len(),
            0 < sched.runnable().len(),
            sched.runnable().len() <= s0.runnable().len() + i,
            s0.runnable().len() + w.len() < usize::MAX,
            sched.current() == s0.current(),
            kept@ == w.subrange(0, i as int).filter(|e: PortWaiter| e.tag != tag),
            forall|x: u64| #[trigger] sched.runnable().contains(x) <==> (s0.runnable().contains(x)
                || (s0.is_suspended(x) && parked_before(w, tag, x, i as int))),
            forall|x: u64| #[trigger] sched.is_suspended(x) <==> (s0.is_suspended(x) && !parked_before(w, tag, x, i as int)),
            sched.threads@.len() == s0.threads@.len(),
            same_processes(s0.threads@, sched.threads@),
            forall|j: int| 0 <= j < sched.threads@.len() ==> #[trigger] sched.threads@[j].id == s0.threads@[j].id,
            forall|j: int|
                0 <= j < sched.threads@.len() && !s0.runnable().contains(sched.threads@[j].id)
                    && sched.runnable().contains(sched.threads@[j].id)
                    ==> (#[trigger] sched.threads@[j]).return_register == 0,
        decreases w.len() - i,
    {
        let e = waiters[i];
        proof {
            assert(w.subrange(0, i + 1) =~= w.subrange(0, i as int).push(e));
            w.subrange(0, i as int).lemma_filter_push(e, |e: PortWaiter| e.tag != tag);
            assert forall|x: u64| #[trigger] parked_before(w, tag, x, i + 1) <==> (parked_before(w, tag, x, i as int) || (e.tag == tag && e.thread == x)) by {
                if parked_before(w, tag, x, i + 1) && !parked_before(w, tag, x, i as int) {
                    let j = choose|j: int| 0 <= j < i + 1 && #[trigger] w[j] == PortWaiter { tag, thread: x };
                    assert(j == i);
                }
                if e.tag == tag && e.thread == x {
                    assert(w[i as int] == PortWaiter { tag, thread: x });
                }
            }
        }
        if e.tag == tag {
            let ghost before = *sched;
            let woke = resume(sched, e.thread, 0);
            proof {
                if woke {
                    crate::waiter::lemma_suspended_not_runnable(before, e.thread);
                    lemma_woken_others(before, *sched, e.thread, 0);
                    crate::waiter::lemma_woken_keeps_processes(before, *sched, e.thread, 0);
                    let bi = crate::scheduler::ids_of(before.threads@);
                    let jy = choose|jy: int| 0 <= jy < bi.len() && bi[jy] == e.thread;
                    assert(crate::scheduler::has_thread(before.threads@, e.thread, jy));
                    assert forall|j: int|
                        0 <= j < sched.threads@.len() && !s0.runnable().contains(sched.threads@[j].id)
                            && sched.runnable().contains(sched.threads@[j].id)
                            implies (#[trigger] sched.threads@[j]).return_register == 0 by {
                        if j != jy {
                            assert(sched.threads@[j] == before.threads@[j]);
                        }
                    }
                    assert forall|j: int| 0 <= j < sched.threads@.len() implies #[trigger] sched.threads@[j].id == s0.threads@[j].id by {
                        assert(before.threads@[j].id == s0.threads@[j].id);
                    }
                }
            }
        } else {
            kept.push(e);
        }
        i = i + 1;
    }
    proof {
        assert(w.subrange(0, w.len() as int) =~= w);
    }
    kept
}

impl Port {
    /// A port with no waiting thread and no pending session.
    pub fn new() -> (r: Port)
        ensures
            r.wait.queue@ == Seq::<WaitEntry>::empty(),
            r.queue@ == Seq::<u64>::empty(),
    {
        Port { wait: Waiter::new(), queue: IdList::new() }
    }
}

impl Port {
    /// How many sessions wait to be accepted.
    pub fn queue_len(&self) -> (r: usize)
        ensures
            r == self.queue@.len(),
    {
        self.queue.len()
    }
}

impl ServerSession {
    /// How many requests wait for service.
    pub fn queue_len(&self) -> (r: usize)
        ensures
            r == self.queue@.len(),
    {
        self.queue.len()
    }

    /// A server session with nobody waiting and no client yet.
    pub fn new() -> (r: ServerSession)
        ensures
            r.wait.queue@ == Seq::<WaitEntry>::empty(),
            r.connect_wait.queue@ == Seq::<WaitEntry>::empty(),
            r.queue@ == Seq::<u64>::empty(),
            r.client is None,
            r.client_thread is None,
    {
        ServerSession {
            wait: Waiter::new(),
            connect_wait: Waiter::new(),
            queue: IdList::new(),
            client: None,
            client_thread: None,
        }
    }
}

impl ClientSession {
    /// The client end of the server session `server`.
    pub fn new(server: u64) -> (r: ClientSession)
        ensures
            r.wait.queue@ == Seq::<WaitEntry>::empty(),
            r.server == server,
    {
        ClientSession { wait: Waiter::new(), server }
    }
}

/// Creates a port and returns a handle to it in the caller's table. A port
/// with a non-zero `tag` is published under it, and the threads parked for
/// that tag are woken so that they connect again.
pub fn svc_create_port(k: &mut Kernel, tag: u64) -> (r: (u32, u32))
    requires
        old(k).wf(),
        old(k).caller_ready(),
        tag != 0 ==> !old(k).port_list@.contains_key(tag),
        old(k).scheduler.runnable().len() + old(k).port_waiters@.len() < usize::MAX,
    ensures
        final(k).wf(),
        final(k).ipc_buffers@ == old(k).ipc_buffers@,
        r.0 == 0,
        is_first_free(old(k).caller_table(), r.1 as int),
        final(k).handle_tables@.len() == old(k).handle_tables@.len(),
        final(k).handle_tables@[old(k).caller()]@ == old(k).caller_table().update(
            r.1 as int,
            Handle::Port(old(k).ports@.len() as u64),
        ),
        forall|i: int|
            0 <= i < old(k).handle_tables@.len() && i != old(k).caller() ==> final(k).handle_tables@[i]
                == old(k).handle_tables@[i],
        final(k).ports@.len() == old(k).ports@.len() + 1,
        forall|i: int| 0 <= i < old(k).ports@.len() ==> final(k).ports@[i] == old(k).ports@[i],
        final(k).ports@[old(k).ports@.len() as int].wait.queue@.len() == 0,
        final(k).ports@[old(k).ports@.len() as int].queue@.len() == 0,
        final(k).server_sessions@ == old(k).server_sessions@,
        final(k).client_sessions@ == old(k).client_sessions@,
        final(k).scheduler.current() == old(k).scheduler.current(),
        tag == 0 ==> {
            &&& final(k).port_list@ == old(k).port_list@
            &&& final(k).port_waiters@ == old(k).port_waiters@
            &&& final(k).scheduler == old(k).scheduler
        },
        tag != 0 ==> {
            &&& final(k).port_list@ == old(k).port_list@.insert(tag, old(k).ports@.len() as u64)
            &&& final(k).port_waiters@ == old(k).port_waiters@.filter(|w: PortWaiter| w.tag != tag)
            &&& forall|x: u64| #[trigger] final(k).scheduler.runnable().contains(x) <==> (old(k).scheduler.runnable().contains(x)
                || (old(k).scheduler.is_suspended(x) && parked_before(old(k).port_waiters@, tag, x, old(k).port_waiters@.len() as int)))
            &&& final(k).scheduler.threads@.len() == old(k).scheduler.threads@.len()
            &&& forall|j: int|
                0 <= j < final(k).scheduler.threads@.len() ==> #[trigger] final(k).scheduler.threads@[j].id
                    == old(k).scheduler.threads@[j].id
            &&& forall|j: int|
                0 <= j < final(k).scheduler.threads@.len() && !old(k).scheduler.runnable().contains(
                    final(k).scheduler.threads@[j].id,
                ) && final(k).scheduler.runnable().contains(final(k).scheduler.threads@[j].id)
                    ==> (#[trigger] final(k).scheduler.threads@[j]).return_register == 0
        },
{
    let caller = k.caller_index();
    let id = k.ports.len() as u64;
    k.ports.push(Port::new());
    if tag != 0 {
        let kept = wake_port_waiters(&mut k.scheduler, &k.port_waiters, tag);
        k.port_waiters = kept;
        k.port_list.insert(tag, id);
    }
    proof {
        let o = old(k);
        assert forall|t: u64| #[trigger] k.port_list@.contains_key(t) implies k.port_list@[t] < k.ports@.len() by {
            if t != tag {
                assert(o.port_list@.contains_key(t));
            }
        }
    }
    let h = k.install_handle(caller, Handle::Port(id));
    (0, h)
}

/// Connects to the port published under `tag`. With no such port yet the
/// caller parks until one is created and then calls again. Otherwise a
/// session is made, its server end is queued on the port and the port's
/// waiter is signalled; the caller blocks until the server accepts, and
/// `svc_connect_to_port_resumed` then finishes the call from the client end.
pub fn svc_connect_to_port(k: &mut Kernel, tag: u64) -> (r: Step<(u32, u32)>)
    requires
        old(k).wf(),
        0 < old(k).scheduler.runnable().len() < usize::MAX - 1,
        !old(k).port_list@.contains_key(tag) ==> old(k).scheduler.runnable().len() > 1,
        old(k).port_list@.contains_key(tag) ==> {
            let w = old(k).ports@[old(k).port_list@[tag] as int].wait.queue@;
            old(k).scheduler.runnable().len() > 1 || first_blocked(w, old(k).scheduler, 0) < w.len()
        },
    ensures
        final(k).wf(),
        final(k).ipc_buffers@ == old(k).ipc_buffers@,
        !old(k).port_list@.contains_key(tag) ==> {
            &&& final(k).port_waiters@ == old(k).port_waiters@.push(
                PortWaiter { tag, thread: old(k).scheduler.current() },
            )
            &&& final(k).handle_tables@ == old(k).handle_tables@
            &&& final(k).ports@ == old(k).ports@
            &&& final(k).server_sessions@ == old(k).server_sessions@
            &&& final(k).client_sessions@ == old(k).client_sessions@
            &&& final(k).port_list@ == old(k).port_list@
            &&& match r {
                Step::Parked(sw) => suspend_post(
                    old(k).scheduler,
                    final(k).scheduler,
                    old(k).scheduler.current(),
                    Some(sw),
                ),
                _ => false,
            }
        },
        old(k).port_list@.contains_key(tag) ==> {
            let p = old(k).port_list@[tag] as int;
            let s = old(k).server_sessions@.len();
            let c = old(k).client_sessions@.len();
            &&& final(k).server_sessions@.len() == s + 1
            &&& forall|i: int| 0 <= i < s ==> final(k).server_sessions@[i] == old(k).server_sessions@[i]
            &&& final(k).server_sessions@[s as int].client == Some(c as u64)
            &&& final(k).server_sessions@[s as int].client_thread is None
            &&& final(k).server_sessions@[s as int].queue@.len() == 0
            &&& final(k).server_sessions@[s as int].wait.queue@.len() == 0
            &&& final(k).server_sessions@[s as int].connect_wait.queue@ == seq![
                WaitEntry { thread: old(k).scheduler.current(), tag: 0 },
            ]
            &&& final(k).client_sessions@.len() == c + 1
            &&& forall|i: int| 0 <= i < c ==> final(k).client_sessions@[i] == old(k).client_sessions@[i]
            &&& final(k).client_sessions@[c as int].server == s as u64
            &&& final(k).client_sessions@[c as int].wait.queue@.len() == 0
            &&& final(k).ports@.len() == old(k).ports@.len()
            &&& forall|i: int| 0 <= i < old(k).ports@.len() && i != p ==> final(k).ports@[i] == old(k).ports@[i]
            &&& final(k).ports@[p].queue@ == old(k).ports@[p].queue@.push(s as u64)
            &&& final(k).port_list@ == old(k).port_list@
            &&& final(k).port_waiters@ == old(k).port_waiters@
            &&& final(k).handle_tables@ == old(k).handle_tables@
            &&& match r {
                Step::Pending(v, sw) => {
                    &&& v == c
                    &&& exists|mid: Scheduler, w: Option<u64>|
                        signal_post(
                            old(k).ports@[p].wait.queue@,
                            final(k).ports@[p].wait.queue@,
                            old(k).scheduler,
                            mid,
                            w,
                        ) && suspend_post(mid, final(k).scheduler, old(k).scheduler.current(), Some(sw))
                },
                _ => false,
            }
        },
{
    let current = k.scheduler.get_current_thread();
    if !k.port_list.contains_key(&tag) {
        k.port_waiters.push(PortWaiter { tag, thread: current });
        let sw = crate::scheduler::suspend_current_thread(&mut k.scheduler).unwrap();
        return Step::Parked(sw);
    }
    let pv: u64 = *k.port_list.get(&tag).unwrap();
    let nports = k.ports.len();
    assert(pv < nports);
    let p = pv as usize;
    let s = k.server_sessions.len();
    let c = k.client_sessions.len();
    let mut server_session = ServerSession::new();
    server_session.client = Some(c as u64);
    k.server_sessions.push(server_session);
    k.client_sessions.push(ClientSession::new(s as u64));
    k.ports[p].queue.push(s as u64);
    let ghost before = k.scheduler;
    let w = k.ports[p].wait.signal_one(&mut k.scheduler);
    let ghost mid = k.scheduler;
    proof {
        lemma_signal_keeps_current(old(k).ports@[p as int].wait.queue@, k.ports@[p as int].wait.queue@, before, mid, w);
    }
    let sw = k.server_sessions[s].connect_wait.wait(&mut k.scheduler);
    proof {
        assert(k.server_sessions@[s as int].connect_wait.queue@ =~= seq![WaitEntry { thread: current, tag: 0 }]);
        let o = old(k);
        assert forall|c2: int| 0 <= c2 < k.client_sessions@.len() implies
            (#[trigger] k.client_sessions@[c2]).server < k.server_sessions@.len() by {
            if c2 < c {
                assert(k.client_sessions@[c2] == o.client_sessions@[c2]);
            }
        }
        assert forall|s2: int| 0 <= s2 < k.server_sessions@.len() implies match (#[trigger] k.server_sessions@[s2]).client {
            Some(c3) => c3 < k.client_sessions@.len(),
            None => true,
        } by {
            if s2 < s {
                assert(k.server_sessions@[s2] == o.server_sessions@[s2]);
            }
        }
        assert forall|t: u64| #[trigger] k.port_list@.contains_key(t) implies k.port_list@[t] < k.ports@.len() by {
            assert(o.port_list@.contains_key(t));
        }
        assert(signal_post(o.ports@[p as int].wait.queue@, k.ports@[p as int].wait.queue@, o.scheduler, mid, w));
        assert forall|p2: int, j: int|
            0 <= p2 < k.ports@.len() && 0 <= j < k.ports@[p2].queue@.len() implies
            #[trigger] k.ports@[p2].queue@[j] < k.server_sessions@.len() by {
            if p2 != p {
                assert(k.ports@[p2] == o.ports@[p2]);
            } else if j < o.ports@[p2].queue@.len() {
                assert(k.ports@[p2].queue@[j] == o.ports@[p2].queue@[j]);
            }
        }
    }
    Step::Pending(c as u64, sw)
}

/// Finishes a connection once the server has accepted it: the client end
/// `client` gets a handle in the caller's table, which the call returns.
pub fn svc_connect_to_port_resumed(k: &mut Kernel, client: u64) -> (r: (u32, u32))
    requires
        old(k).wf(),
        old(k).caller_ready(),
    ensures
        final(k).wf(),
        r.0 == 0,
        is_first_free(old(k).caller_table(), r.1 as int),
        final(k).handle_tables@.len() == old(k).handle_tables@.len(),
        final(k).handle_tables@[old(k).caller()]@ == old(k).caller_table().update(
            r.1 as int,
            Handle::ClientSession(client),
        ),
        forall|i: int|
            0 <= i < old(k).handle_tables@.len() && i != old(k).caller() ==> final(k).handle_tables@[i]
                == old(k).handle_tables@[i],
        final(k).scheduler == old(k).scheduler,
        final(k).ports@ == old(k).ports@,
        final(k).server_sessions@ == old(k).server_sessions@,
        final(k).client_sessions@ == old(k).client_sessions@,
        final(k).port_list@ == old(k).port_list@,
        final(k).port_waiters@ == old(k).port_waiters@,
        final(k).ipc_buffers@ == old(k).ipc_buffers@,
{
    let caller = k.caller_index();
    let h = k.install_handle(caller, Handle::ClientSession(client));
    (0, h)
}

/// Accepts the oldest session pending on the port that `port_handle` names:
/// its client is woken and the caller gets a handle to the server end. A
/// handle that names no port is an error, `(1, u32::MAX)`.
pub fn svc_ipc_accept(k: &mut Kernel, port_handle: u32) -> (r: (u32, u32))
    requires
        old(k).wf(),
        old(k).scheduler.runnable().len() > 0,
        old(k).scheduler.runnable().len() < usize::MAX - 1,
        match handle_at(old(k).caller_table(), port_handle) {
            Handle::Port(p) => p < old(k).ports@.len() ==> {
                &&& old(k).ports@[p as int].queue@.len() > 0
                &&& has_free(old(k).caller_table())
            },
            _ => true,
        },
    ensures
        final(k).wf(),
        final(k).ipc_buffers@ == old(k).ipc_buffers@,
        match handle_at(old(k).caller_table(), port_handle) {
            Handle::Port(p) if p < old(k).ports@.len() => {
                let s = old(k).ports@[p as int].queue@[0];
                &&& r.0 == 0
                &&& is_first_free(old(k).caller_table(), r.1 as int)
                &&& final(k).handle_tables@[old(k).caller()]@ == old(k).caller_table().update(
                    r.1 as int,
                    Handle::ServerSession(s),
                )
                &&& final(k).ports@.len() == old(k).ports@.len()
                &&& final(k).ports@[p as int].queue@ == old(k).ports@[p as int].queue@.drop_first()
                &&& final(k).ports@[p as int].wait == old(k).ports@[p as int].wait
                &&& forall|i: int| 0 <= i < old(k).ports@.len() && i != p ==> final(k).ports@[i] == old(k).ports@[i]
                &&& final(k).server_sessions@.len() == old(k).server_sessions@.len()
                &&& forall|i: int|
                    0 <= i < old(k).server_sessions@.len() && i != s ==> final(k).server_sessions@[i]
                        == old(k).server_sessions@[i]
                &&& final(k).server_sessions@[s as int].wait == old(k).server_sessions@[s as int].wait
                &&& final(k).server_sessions@[s as int].queue == old(k).server_sessions@[s as int].queue
                &&& final(k).server_sessions@[s as int].client == old(k).server_sessions@[s as int].client
                &&& final(k).server_sessions@[s as int].client_thread == old(k).server_sessions@[s as int].client_thread
                &&& exists|w: Option<u64>|
                    signal_post(
                        old(k).server_sessions@[s as int].connect_wait.queue@,
                        final(k).server_sessions@[s as int].connect_wait.queue@,
                        old(k).scheduler,
                        final(k).scheduler,
                        w,
                    )
            },
            _ => {
                &&& r == (1u32, 0xffff_ffffu32)
                &&& final(k).handle_tables@ == old(k).handle_tables@
                &&& final(k).ports@ == old(k).ports@
                &&& final(k).server_sessions@ == old(k).server_sessions@
                &&& final(k).scheduler == old(k).scheduler
            },
        },
        final(k).client_sessions@ == old(k).client_sessions@,
        final(k).port_list@ == old(k).port_list@,
        final(k).port_waiters@ == old(k).port_waiters@,
{
    let caller = k.caller_index();
    assert(k.handle_tables@[caller as int].wf());
    let obj = k.handle_tables[caller].get_object(port_handle);
    let nports = k.ports.len();
    match obj {
        Handle::Port(pv) => {
            if pv < nports as u64 {
                let p = pv as usize;
                let ghost q = k.ports@[p as int].queue@;
                let s = k.ports[p].queue.remove(0);
                proof {
                    assert(k.ports@[p as int].queue@ =~= q.drop_first());
                }
                let nss = k.server_sessions.len();
                proof {
                    assert(old(k).ports@[p as int].queue@[0] < nss);
                }
                {
                    let ghost before = k.scheduler;
                    let w = k.server_sessions[s as usize].connect_wait.signal_one(&mut k.scheduler);
                    proof {
                        let o = old(k);
                        lemma_signal_keeps_current(
                            o.server_sessions@[s as int].connect_wait.queue@,
                            k.server_sessions@[s as int].connect_wait.queue@,
                            before,
                            k.scheduler,
                            w,
                        );
                        assert forall|s2: int| 0 <= s2 < k.server_sessions@.len() implies match (#[trigger] k.server_sessions@[s2]).client {
                            Some(c3) => c3 < k.client_sessions@.len(),
                            None => true,
                        } by {
                            if s2 != s {
                                assert(k.server_sessions@[s2] == o.server_sessions@[s2]);
                            } else {
                                assert(o.server_sessions@[s2].client == k.server_sessions@[s2].client);
                            }
                        }
                    }
                }
                let h = k.install_handle(caller, Handle::ServerSession(s));
                (0, h)
            } else {
                (1, 0xffff_ffff)
            }
        },
        _ => (1, 0xffff_ffff),
    }
}

/// Sends a request on the client session that `session_handle` names: the
/// caller joins the back of the server session's request queue, the server
/// session's waiter is signalled, and the caller blocks on its client
/// session until the reply; the call then returns 0. A handle that names no
/// client session is an error, 1.
pub fn svc_ipc_request(k: &mut Kernel, session_handle: u32) -> (r: Step<u32>)
    requires
        old(k).wf(),
        old(k).scheduler.runnable().len() > 0,
        old(k).scheduler.runnable().len() < usize::MAX - 1,
        match handle_at(old(k).caller_table(), session_handle) {
            Handle::ClientSession(c) => c < old(k).client_sessions@.len() ==> {
                let w = old(k).server_sessions@[old(k).client_sessions@[c as int].server as int].wait.queue@;
                old(k).scheduler.runnable().len() > 1 || first_blocked(w, old(k).scheduler, 0) < w.len()
            },
            _ => true,
        },
    ensures
        final(k).wf(),
        final(k).ipc_buffers@ == old(k).ipc_buffers@,
        final(k).handle_tables@ == old(k).handle_tables@,
        final(k).ports@ == old(k).ports@,
        final(k).port_list@ == old(k).port_list@,
        final(k).port_waiters@ == old(k).port_waiters@,
        match handle_at(old(k).caller_table(), session_handle) {
            Handle::ClientSession(c) if c < old(k).client_sessions@.len() => {
                let s = old(k).client_sessions@[c as int].server as int;
                let me = old(k).scheduler.current();
                &&& final(k).server_sessions@.len() == old(k).server_sessions@.len()
                &&& forall|i: int| 0 <= i < old(k).server_sessions@.len() && i != s ==> final(k).server_sessions@[i] == old(k).server_sessions@[i]
                &&& final(k).server_sessions@[s].queue@ == old(k).server_sessions@[s].queue@.push(me)
                &&& request_queued(old(k).server_sessions@[s], final(k).server_sessions@[s], me)
                &&& final(k).server_sessions@[s].connect_wait == old(k).server_sessions@[s].connect_wait
                &&& final(k).server_sessions@[s].client == old(k).server_sessions@[s].client
                &&& final(k).server_sessions@[s].client_thread == old(k).server_sessions@[s].client_thread
                &&& final(k).client_sessions@.len() == old(k).client_sessions@.len()
                &&& forall|i: int| 0 <= i < old(k).client_sessions@.len() && i != c ==> final(k).client_sessions@[i] == old(k).client_sessions@[i]
                &&& final(k).client_sessions@[c as int].server == old(k).client_sessions@[c as int].server
                &&& final(k).client_sessions@[c as int].wait.queue@ == old(k).client_sessions@[c as int].wait.queue@.push(WaitEntry { thread: me, tag: 0 })
                &&& match r {
                    Step::Blocked(v, sw) => v == 0 && exists|mid: Scheduler, w: Option<u64>|
                        signal_post(
                            old(k).server_sessions@[s].wait.queue@,
                            final(k).server_sessions@[s].wait.queue@,
                            old(k).scheduler,
                            mid,
                            w,
                        ) && suspend_post(mid, final(k).scheduler, me, Some(sw)),
                    _ => false,
                }
            },
            _ => {
                &&& r matches Step::Ready(v) && v == 1
                &&& final(k).server_sessions@ == old(k).server_sessions@
                &&& final(k).client_sessions@ == old(k).client_sessions@
                &&& final(k).scheduler == old(k).scheduler
            },
        },
{
    let caller = k.caller_index();
    assert(k.handle_tables@[caller as int].wf());
    let obj = k.handle_tables[caller].get_object(session_handle);
    let ncs = k.client_sessions.len();
    match obj {
        Handle::ClientSession(cv) => {
            if cv < ncs as u64 {
                let c = cv as usize;
                let sv = k.client_sessions[c].server;
                let nss = k.server_sessions.len();
                assert(sv < nss);
                let s = sv as usize;
                let current_thread = k.scheduler.get_current_thread();
                k.server_sessions[s].queue.push(current_thread);
                let ghost before = k.scheduler;
                let w = k.server_sessions[s].wait.signal_one(&mut k.scheduler);
                let ghost mid = k.scheduler;
                proof {
                    lemma_signal_keeps_current(
                        old(k).server_sessions@[s as int].wait.queue@,
                        k.server_sessions@[s as int].wait.queue@,
                        before,
                        mid,
                        w,
                    );
                }
                let sw = k.client_sessions[c].wait.wait(&mut k.scheduler);
                proof {
                    let o = old(k);
                    assert forall|c2: int| 0 <= c2 < k.client_sessions@.len() implies
            (#[trigger] k.client_sessions@[c2]).server < k.server_sessions@.len() by {
                        if c2 != c {
                            assert(k.client_sessions@[c2] == o.client_sessions@[c2]);
                        }
                    }
                    assert forall|s2: int| 0 <= s2 < k.server_sessions@.len() implies match (#[trigger] k.server_sessions@[s2]).client {
                        Some(c3) => c3 < k.client_sessions@.len(),
                        None => true,
                    } by {
                        if s2 != s {
                            assert(k.server_sessions@[s2] == o.server_sessions@[s2]);
                        }
                    }
                    assert(signal_post(
                        o.server_sessions@[s as int].wait.queue@,
                        k.server_sessions@[s as int].wait.queue@,
                        o.scheduler,
                        mid,
                        w,
                    ));
                }
                Step::Blocked(0, sw)
            } else {
                Step::Ready(1)
            }
        },
        _ => Step::Ready(1),
    }
}

/// Replies on the server session that `session_handle` names: the client
/// being served is cleared, the caller's IPC buffer is copied into the
/// client's, and the client session's waiter is signalled, which wakes the
/// client; the call returns 0. Where the client session is gone, the reply
/// is dropped: only the client being served is cleared. A handle that names
/// no server session is an error, 1.
pub fn svc_ipc_reply(k: &mut Kernel, session_handle: u32) -> (r: u32)
    requires
        old(k).wf(),
        old(k).scheduler.runnable().len() > 0,
        old(k).scheduler.runnable().len() < usize::MAX - 1,
        match handle_at(old(k).caller_table(), session_handle) {
            Handle::ServerSession(s) => s < old(k).server_sessions@.len()
                ==> old(k).server_sessions@[s as int].client_thread is Some,
            _ => true,
        },
    ensures
        final(k).wf(),
        final(k).handle_tables@ == old(k).handle_tables@,
        final(k).ports@ == old(k).ports@,
        final(k).port_list@ == old(k).port_list@,
        final(k).port_waiters@ == old(k).port_waiters@,
        match handle_at(old(k).caller_table(), session_handle) {
            Handle::ServerSession(s) if s < old(k).server_sessions@.len() => {
                let t = old(k).server_sessions@[s as int].client_thread->0;
                &&& r == 0
                &&& final(k).server_sessions@.len() == old(k).server_sessions@.len()
                &&& forall|i: int|
                    0 <= i < old(k).server_sessions@.len() && i != s ==> final(k).server_sessions@[i]
                        == old(k).server_sessions@[i]
                &&& final(k).server_sessions@[s as int].client_thread is None
                &&& final(k).server_sessions@[s as int].queue == old(k).server_sessions@[s as int].queue
                &&& reply_sent(old(k).server_sessions@[s as int], final(k).server_sessions@[s as int])
                &&& final(k).server_sessions@[s as int].wait == old(k).server_sessions@[s as int].wait
                &&& final(k).server_sessions@[s as int].connect_wait == old(k).server_sessions@[s as int].connect_wait
                &&& final(k).server_sessions@[s as int].client == old(k).server_sessions@[s as int].client
                &&& final(k).client_sessions@.len() == old(k).client_sessions@.len()
                &&& match old(k).server_sessions@[s as int].client {
                    Some(cv) => {
                        let c = cv as int;
                        &&& buffer_of(final(k).ipc_buffers@, t) == buffer_of(
                            old(k).ipc_buffers@,
                            old(k).scheduler.current(),
                        )
                        &&& forall|x: u64|
                            x != t ==> #[trigger] buffer_of(final(k).ipc_buffers@, x) == buffer_of(
                                old(k).ipc_buffers@,
                                x,
                            )
                        &&& forall|i: int|
                            0 <= i < old(k).client_sessions@.len() && i != c ==> final(k).client_sessions@[i]
                                == old(k).client_sessions@[i]
                        &&& final(k).client_sessions@[c].server == old(k).client_sessions@[c].server
                        &&& exists|w: Option<u64>|
                            signal_post(
                                old(k).client_sessions@[c].wait.queue@,
                                final(k).client_sessions@[c].wait.queue@,
                                old(k).scheduler,
                                final(k).scheduler,
                                w,
                            )
                    },
                    None => {
                        &&& final(k).ipc_buffers@ == old(k).ipc_buffers@
                        &&& final(k).client_sessions@ == old(k).client_sessions@
                        &&& final(k).scheduler == old(k).scheduler
                    },
                }
            },
            _ => {
                &&& r == 1
                &&& final(k).ipc_buffers@ == old(k).ipc_buffers@
                &&& final(k).server_sessions@ == old(k).server_sessions@
                &&& final(k).client_sessions@ == old(k).client_sessions@
                &&& final(k).scheduler == old(k).scheduler
            },
        },
{
    let caller = k.caller_index();
    assert(k.handle_tables@[caller as int].wf());
    let obj = k.handle_tables[caller].get_object(session_handle);
    let nss = k.server_sessions.len();
    match obj {
        Handle::ServerSession(sv) => {
            if sv < nss as u64 {
                let s = sv as usize;
                let me = k.scheduler.get_current_thread();
                let client_thread = k.server_sessions[s].client_thread.unwrap();
                match k.server_sessions[s].client {
                    Some(cv) => {
                        k.copy_ipc_buffer(me, client_thread);
                        k.server_sessions[s].client_thread = None;
                        let ncs = k.client_sessions.len();
                        assert(cv < ncs);
                        let c = cv as usize;
                        let w = k.client_sessions[c].wait.signal_one(&mut k.scheduler);
                        proof {
                            let o = old(k);
                            lemma_signal_keeps_current(
                                o.client_sessions@[c as int].wait.queue@,
                                k.client_sessions@[c as int].wait.queue@,
                                o.scheduler,
                                k.scheduler,
                                w,
                            );
                            assert forall|c2: int| 0 <= c2 < k.client_sessions@.len() implies
                                (#[trigger] k.client_sessions@[c2]).server < k.server_sessions@.len() by {
                                if c2 != c {
                                    assert(k.client_sessions@[c2] == o.client_sessions@[c2]);
                                }
                            }
                        }
                    },
                    None => {
                        k.server_sessions[s].client_thread = None;
                    },
                }
                proof {
                    let o = old(k);
                    assert forall|s2: int| 0 <= s2 < k.server_sessions@.len() implies match (#[trigger] k.server_sessions@[s2]).client {
                        Some(c3) => c3 < k.client_sessions@.len(),
                        None => true,
                    } by {
                        if s2 != s {
                            assert(k.server_sessions@[s2] == o.server_sessions@[s2]);
                        }
                    }
                    assert forall|c2: int| 0 <= c2 < k.client_sessions@.len() implies
                        (#[trigger] k.client_sessions@[c2]).server < k.server_sessions@.len() by {
                        assert(k.client_sessions@[c2].server == o.client_sessions@[c2].server);
                    }
                }
                0
            } else {
                1
            }
        },
        _ => 1,
    }
}

/// Whether handle `h` in `table` names a port or a server session of `k`.
pub open spec fn waitable(k: Kernel, table: Seq<Handle>, h: u32) -> bool {
    match handle_at(table, h) {
        Handle::Port(p) => p < k.ports@.len(),
        Handle::ServerSession(s) => s < k.server_sessions@.len(),
        _ => false,
    }
}

/// The entries that a receive on the first `n` of `handles` adds for
/// `thread` to the waiter of `obj`: one for each position that names `obj`,
/// tagged with that position.
pub open spec fn wait_entries(
    table: Seq<Handle>,
    handles: Seq<u32>,
    obj: Handle,
    thread: u64,
    n: int,
) -> Seq<WaitEntry>
    decreases n,
{
    if n <= 0 {
        Seq::empty()
    } else {
        let prev = wait_entries(table, handles, obj, thread, n - 1);
        if handle_at(table, handles[n - 1]) == obj {
            prev.push(WaitEntry { thread, tag: (n - 1) as usize })
        } else {
            prev
        }
    }
}

/// Waits on every port and server session that `handles` names: the caller
/// joins each one's waiter, tagged with the position of the handle, and
/// blocks. The call is finished by `svc_ipc_receive_resumed` with the tag it
/// was woken with. A handle that names neither is an error, `(1, 0)`.
pub fn svc_ipc_receive(k: &mut Kernel, handles: &Vec<u32>) -> (r: Step<(u32, usize)>)
    requires
        old(k).wf(),
        old(k).scheduler.runnable().len() > 1,
        handles@.len() <= MAX_WAIT_HANDLES,
    ensures
        final(k).wf(),
        final(k).ipc_buffers@ == old(k).ipc_buffers@,
        final(k).handle_tables@ == old(k).handle_tables@,
        final(k).client_sessions@ == old(k).client_sessions@,
        final(k).port_list@ == old(k).port_list@,
        final(k).port_waiters@ == old(k).port_waiters@,
        !(forall|i: int| 0 <= i < handles@.len() ==> #[trigger] waitable(*old(k), old(k).caller_table(), handles@[i])) ==> {
            &&& r matches Step::Ready(v) && v == (1u32, 0usize)
            &&& final(k).ports@ == old(k).ports@
            &&& final(k).server_sessions@ == old(k).server_sessions@
            &&& final(k).scheduler == old(k).scheduler
        },
        (forall|i: int| 0 <= i < handles@.len() ==> #[trigger] waitable(*old(k), old(k).caller_table(), handles@[i])) ==> {
            let me = old(k).scheduler.current();
            let t = old(k).caller_table();
            &&& final(k).ports@.len() == old(k).ports@.len()
            &&& forall|p: int| 0 <= p < old(k).ports@.len() ==> {
                &&& (#[trigger] final(k).ports@[p]).queue == old(k).ports@[p].queue
                &&& final(k).ports@[p].wait.queue@ == old(k).ports@[p].wait.queue@
                    + wait_entries(t, handles@, Handle::Port(p as u64), me, handles@.len() as int)
            }
            &&& final(k).server_sessions@.len() == old(k).server_sessions@.len()
            &&& forall|s: int| 0 <= s < old(k).server_sessions@.len() ==> {
                &&& (#[trigger] final(k).server_sessions@[s]).queue == old(k).server_sessions@[s].queue
                &&& final(k).server_sessions@[s].connect_wait == old(k).server_sessions@[s].connect_wait
                &&& final(k).server_sessions@[s].client == old(k).server_sessions@[s].client
                &&& final(k).server_sessions@[s].client_thread == old(k).server_sessions@[s].client_thread
                &&& final(k).server_sessions@[s].wait.queue@ == old(k).server_sessions@[s].wait.queue@
                    + wait_entries(t, handles@, Handle::ServerSession(s as u64), me, handles@.len() as int)
            }
            &&& match r {
                Step::Parked(sw) => suspend_post(old(k).scheduler, final(k).scheduler, me, Some(sw)),
                _ => false,
            }
        },
{
    let caller = k.caller_index();
    assert(k.handle_tables@[caller as int].wf());
    let ghost o = *old(k);
    let ghost t = o.caller_table();
    let n = handles.len();
    let nports = k.ports.len();
    let nss = k.server_sessions.len();
    let mut i: usize = 0;
    while i < n
        invariant
            *k == o,
            o == *old(k),
            o.wf(),
            caller < o.handle_tables@.len(),
            n == handles@.len(),
            nports == o.ports@.len(),
            nss == o.server_sessions@.len(),
            caller == o.caller(),
            t == o.caller_table(),
            o.handle_tables@[caller as int].wf(),
            i <= n,
            forall|j: int| 0 <= j < i ==> #[trigger] waitable(o, t, handles@[j]),
        decreases n - i,
    {
        let ok = match k.handle_tables[caller].get_object(handles[i]) {
            Handle::Port(p) => p < nports as u64,
            Handle::ServerSession(s) => s < nss as u64,
            _ => false,
        };
        if !ok {
            proof {
                assert(!waitable(o, t, handles@[i as int]));
            }
            return Step::Ready((1, 0));
        }
        i = i + 1;
    }
    let me = k.scheduler.get_current_thread();
    let mut i: usize = 0;
    while i < n
        invariant
            k.wf(),
            k.scheduler == o.scheduler,
            k.handle_tables@ == o.handle_tables@,
            k.client_sessions@ == o.client_sessions@,
            k.port_list@ == o.port_list@,
            k.port_waiters@ == o.port_waiters@,
            k.ipc_buffers@ == o.ipc_buffers@,
            o.wf(),
            o == *old(k),
            caller < o.handle_tables@.len(),
            o.scheduler.runnable().len() > 1,
            me == o.scheduler.current(),
            n == handles@.len(),
            n <= MAX_WAIT_HANDLES,
            nports == o.ports@.len(),
            nss == o.server_sessions@.len(),
            caller == o.caller(),
            t == o.caller_table(),
            o.handle_tables@[caller as int].wf(),
            i <= n,
            forall|j: int| 0 <= j < n ==> #[trigger] waitable(o, t, handles@[j]),
            k.ports@.len() == o.ports@.len(),
            forall|p: int| 0 <= p < o.ports@.len() ==> {
                &&& (#[trigger] k.ports@[p]).queue == o.ports@[p].queue
                &&& k.ports@[p].wait.queue@ == o.ports@[p].wait.queue@ + wait_entries(t, handles@, Handle::Port(p as u64), me, i as int)
            },
            k.server_sessions@.len() == o.server_sessions@.len(),
            forall|s: int| 0 <= s < o.server_sessions@.len() ==> {
                &&& (#[trigger] k.server_sessions@[s]).queue == o.server_sessions@[s].queue
                &&& k.server_sessions@[s].connect_wait == o.server_sessions@[s].connect_wait
                &&& k.server_sessions@[s].client == o.server_sessions@[s].client
                &&& k.server_sessions@[s].client_thread == o.server_sessions@[s].client_thread
                &&& k.server_sessions@[s].wait.queue@ == o.server_sessions@[s].wait.queue@
                    + wait_entries(t, handles@, Handle::ServerSession(s as u64), me, i as int)
            },
        decreases n - i,
    {
        let obj = k.handle_tables[caller].get_object(handles[i]);
        proof {
            assert(waitable(o, t, handles@[i as int]));
        }
        let ghost k0 = *k;
        match obj {
            Handle::Port(pv) => {
                let p = pv as usize;
                assert(p == pv);
                k.ports[p].wait.enqueue_current(&k.scheduler, i);
                proof {
                    assert forall|p2: int| 0 <= p2 < o.ports@.len() implies {
                        &&& (#[trigger] k.ports@[p2]).queue == o.ports@[p2].queue
                        &&& k.ports@[p2].wait.queue@ == o.ports@[p2].wait.queue@
                            + wait_entries(t, handles@, Handle::Port(p2 as u64), me, i + 1)
                    } by {
                        if p2 == p {
                            let obj = Handle::Port(p2 as u64);
                            let q = o.ports@[p2].wait.queue@;
                            assert((q + wait_entries(t, handles@, obj, me, i as int)).push(
                                WaitEntry { thread: me, tag: i },
                            ) =~= q + wait_entries(t, handles@, obj, me, i + 1));
                        } else {
                            assert(k.ports@[p2] == k0.ports@[p2]);
                        }
                    }
                    assert forall|s2: int| 0 <= s2 < o.server_sessions@.len() implies
                        #[trigger] k.server_sessions@[s2].wait.queue@ == o.server_sessions@[s2].wait.queue@
                            + wait_entries(t, handles@, Handle::ServerSession(s2 as u64), me, i + 1) by {
                        assert(k.server_sessions@[s2] == k0.server_sessions@[s2]);
                    }
                }
            },
            Handle::ServerSession(sv) => {
                let s = sv as usize;
                assert(s == sv);
                k.server_sessions[s].wait.enqueue_current(&k.scheduler, i);
                proof {
                    assert forall|p2: int| 0 <= p2 < o.ports@.len() implies
                        #[trigger] k.ports@[p2].wait.queue@ == o.ports@[p2].wait.queue@
                            + wait_entries(t, handles@, Handle::Port(p2 as u64), me, i + 1) by {
                        assert(k.ports@[p2] == k0.ports@[p2]);
                    }
                    assert forall|s2: int| 0 <= s2 < o.server_sessions@.len() implies {
                        &&& (#[trigger] k.server_sessions@[s2]).queue == o.server_sessions@[s2].queue
                        &&& k.server_sessions@[s2].connect_wait == o.server_sessions@[s2].connect_wait
                        &&& k.server_sessions@[s2].client == o.server_sessions@[s2].client
                        &&& k.server_sessions@[s2].client_thread == o.server_sessions@[s2].client_thread
                        &&& k.server_sessions@[s2].wait.queue@ == o.server_sessions@[s2].wait.queue@
                            + wait_entries(t, handles@, Handle::ServerSession(s2 as u64), me, i + 1)
                    } by {
                        if s2 == s {
                            let obj = Handle::ServerSession(s2 as u64);
                            let q = o.server_sessions@[s2].wait.queue@;
                            assert((q + wait_entries(t, handles@, obj, me, i as int)).push(
                                WaitEntry { thread: me, tag: i },
                            ) =~= q + wait_entries(t, handles@, obj, me, i + 1));
                        } else {
                            assert(k.server_sessions@[s2] == k0.server_sessions@[s2]);
                        }
                    }
                    assert forall|s2: int| 0 <= s2 < k.server_sessions@.len() implies match (#[trigger] k.server_sessions@[s2]).client {
                        Some(c3) => c3 < k.client_sessions@.len(),
                        None => true,
                    } by {
                        assert(k.server_sessions@[s2].client == k0.server_sessions@[s2].client);
                    }
                }
            },
            _ => {},
        }
        i = i + 1;
    }
    let sw = crate::scheduler::suspend_current_thread(&mut k.scheduler).unwrap();
    Step::Parked(sw)
}

/// Finishes a receive once the caller runs again, woken with tag `index`:
/// its entries leave every port and server-session waiter, and where
/// `handles[index]` names a server session, the oldest request there is
/// taken into service. Returns `(0, index)`.
pub fn svc_ipc_receive_resumed(k: &mut Kernel, handles: &Vec<u32>, index: usize) -> (r: (u32, usize))
    requires
        old(k).wf(),
        old(k).scheduler.runnable().len() > 0,
        index < handles@.len(),
        match handle_at(old(k).caller_table(), handles@[index as int]) {
            Handle::ServerSession(s) => s < old(k).server_sessions@.len() ==> old(k).server_sessions@[s as int].queue@.len() > 0,
            _ => true,
        },
    ensures
        final(k).wf(),
        r == (0u32, index),
        final(k).scheduler == old(k).scheduler,
        match handle_at(old(k).caller_table(), handles@[index as int]) {
            Handle::ServerSession(s) if s < old(k).server_sessions@.len() => {
                &&& buffer_of(final(k).ipc_buffers@, old(k).scheduler.current()) == buffer_of(
                    old(k).ipc_buffers@,
                    old(k).server_sessions@[s as int].queue@[0],
                )
                &&& forall|t: u64| t != old(k).scheduler.current() ==> #[trigger] buffer_of(final(k).ipc_buffers@, t) == buffer_of(old(k).ipc_buffers@, t)
            },
            _ => final(k).ipc_buffers@ == old(k).ipc_buffers@,
        },
        final(k).handle_tables@ == old(k).handle_tables@,
        final(k).client_sessions@ == old(k).client_sessions@,
        final(k).port_list@ == old(k).port_list@,
        final(k).port_waiters@ == old(k).port_waiters@,
        final(k).ports@.len() == old(k).ports@.len(),
        forall|p: int| 0 <= p < old(k).ports@.len() ==> {
            &&& (#[trigger] final(k).ports@[p]).queue == old(k).ports@[p].queue
            &&& final(k).ports@[p].wait.queue@ == old(k).ports@[p].wait.queue@.filter(|e: WaitEntry| e.thread != old(k).scheduler.current())
        },
        final(k).server_sessions@.len() == old(k).server_sessions@.len(),
        forall|s: int| 0 <= s < old(k).server_sessions@.len() ==> {
            &&& (#[trigger] final(k).server_sessions@[s]).connect_wait == old(k).server_sessions@[s].connect_wait
            &&& final(k).server_sessions@[s].client == old(k).server_sessions@[s].client
            &&& final(k).server_sessions@[s].wait.queue@ == old(k).server_sessions@[s].wait.queue@.filter(
                |e: WaitEntry| e.thread != old(k).scheduler.current(),
            )
            &&& if handle_at(old(k).caller_table(), handles@[index as int]) == Handle::ServerSession(s as u64) {
                &&& final(k).server_sessions@[s].queue@ == old(k).server_sessions@[s].queue@.drop_first()
                &&& final(k).server_sessions@[s].client_thread == Some(old(k).server_sessions@[s].queue@[0])
                &&& request_taken(old(k).server_sessions@[s], final(k).server_sessions@[s])
            } else {
                &&& final(k).server_sessions@[s].queue == old(k).server_sessions@[s].queue
                &&& final(k).server_sessions@[s].client_thread == old(k).server_sessions@[s].client_thread
            }
        },
{
    let ghost o = *old(k);
    let caller = k.caller_index();
    let me = k.scheduler.get_current_thread();
    let nports = k.ports.len();
    let mut p: usize = 0;
    while p < nports
        invariant
            o == *old(k),
            nports == o.ports@.len(),
            k.ports@.len() == nports,
            p <= nports,
            k.scheduler == o.scheduler,
            k.handle_tables@ == o.handle_tables@,
            k.client_sessions@ == o.client_sessions@,
            k.server_sessions@ == o.server_sessions@,
            k.port_list@ == o.port_list@,
            k.port_waiters@ == o.port_waiters@,
            k.ipc_buffers@ == o.ipc_buffers@,
            forall|q: int| 0 <= q < nports ==> {
                &&& (#[trigger] k.ports@[q]).queue == o.ports@[q].queue
                &&& k.ports@[q].wait.queue@ == if q < p {
                    o.ports@[q].wait.queue@.filter(|e: WaitEntry| e.thread != me)
                } else {
                    o.ports@[q].wait.queue@
                }
            },
        decreases nports - p,
    {
        let ghost k0 = *k;
        k.ports[p].wait.remove_thread(me);
        proof {
            assert forall|q: int| 0 <= q < nports && q != p implies #[trigger] k.ports@[q] == k0.ports@[q] by {}
        }
        p = p + 1;
    }
    let nss = k.server_sessions.len();
    let mut s: usize = 0;
    while s < nss
        invariant
            o == *old(k),
            nss == o.server_sessions@.len(),
            k.server_sessions@.len() == nss,
            s <= nss,
            k.scheduler == o.scheduler,
            k.handle_tables@ == o.handle_tables@,
            k.client_sessions@ == o.client_sessions@,
            k.port_list@ == o.port_list@,
            k.port_waiters@ == o.port_waiters@,
            k.ipc_buffers@ == o.ipc_buffers@,
            k.ports@.len() == o.ports@.len(),
            forall|q: int| 0 <= q < o.ports@.len() ==> {
                &&& (#[trigger] k.ports@[q]).queue == o.ports@[q].queue
                &&& k.ports@[q].wait.queue@ == o.ports@[q].wait.queue@.filter(|e: WaitEntry| e.thread != me)
            },
            forall|q: int| 0 <= q < nss ==> {
                &&& (#[trigger] k.server_sessions@[q]).connect_wait == o.server_sessions@[q].connect_wait
                &&& k.server_sessions@[q].client == o.server_sessions@[q].client
                &&& k.server_sessions@[q].queue == o.server_sessions@[q].queue
                &&& k.server_sessions@[q].client_thread == o.server_sessions@[q].client_thread
                &&& k.server_sessions@[q].wait.queue@ == if q < s {
                    o.server_sessions@[q].wait.queue@.filter(|e: WaitEntry| e.thread != me)
                } else {
                    o.server_sessions@[q].wait.queue@
                }
            },
        decreases nss - s,
    {
        let ghost k0 = *k;
        k.server_sessions[s].wait.remove_thread(me);
        proof {
            assert forall|q: int| 0 <= q < nss && q != s implies #[trigger] k.server_sessions@[q] == k0.server_sessions@[q] by {}
        }
        s = s + 1;
    }
    assert(o.handle_tables@[caller as int].wf());
    let obj = k.handle_tables[caller].get_object(handles[index]);
    match obj {
        Handle::ServerSession(sv) => {
            if sv < nss as u64 {
                let s = sv as usize;
                let ghost k0 = *k;
                let client_thread = k.server_sessions[s].queue.remove(0);
                k.server_sessions[s].client_thread = Some(client_thread);
                k.copy_ipc_buffer(client_thread, me);
                proof {
                    assert(k.server_sessions@[s as int].queue@ =~= o.server_sessions@[s as int].queue@.drop_first());
                    assert forall|q: int| 0 <= q < nss && q != s implies #[trigger] k.server_sessions@[q] == k0.server_sessions@[q] by {}
                }
            }
        },
        _ => {},
    }
    proof {
        assert forall|s2: int| 0 <= s2 < k.server_sessions@.len() implies match (#[trigger] k.server_sessions@[s2]).client {
            Some(c3) => c3 < k.client_sessions@.len(),
            None => true,
        } by {
            assert(k.server_sessions@[s2].client == o.server_sessions@[s2].client);
        }
        assert forall|c2: int| 0 <= c2 < k.client_sessions@.len() implies
            (#[trigger] k.client_sessions@[c2]).server < k.server_sessions@.len() by {
            assert(k.client_sessions@[c2] == o.client_sessions@[c2]);
        }
        assert forall|t: u64| #[trigger] k.port_list@.contains_key(t) implies k.port_list@[t] < k.ports@.len() by {
            assert(o.port_list@.contains_key(t));
        }
    }
    (0, index)
}

/// What a request by thread `c` does to its server session: `c` joins the
/// back of the request queue; the client being served stays.
pub open spec fn request_queued(o: ServerSession, f: ServerSession, c: u64) -> bool {
    &&& f.queue@ == o.queue@.push(c)
    &&& f.client_thread == o.client_thread
}

/// What a receive that wakes on a server session does to it: the oldest
/// request leaves the queue and its thread becomes the client being served.
pub open spec fn request_taken(o: ServerSession, f: ServerSession) -> bool {
    &&& o.queue@.len() > 0
    &&& f.queue@ == o.queue@.drop_first()
    &&& f.client_thread == Some(o.queue@[0])
}

/// What a reply does to its server session: the request queue stays and no
/// client is being served.
pub open spec fn reply_sent(o: ServerSession, f: ServerSession) -> bool {
    &&& f.queue@ == o.queue@
    &&& f.client_thread is None
}

/// Rendezvous order: when client `c1` and then client `c2` request on a
/// server session with no request pending, the server's next two
/// receive/reply cycles on it serve `c1` first and `c2` second.
pub proof fn lemma_rendezvous_order(a: Seq<ServerSession>, c1: u64, c2: u64)
    requires
        a.len() == 6,
        a[0].queue@.len() == 0,
        request_queued(a[0], a[1], c1),
        request_queued(a[1], a[2], c2),
        request_taken(a[2], a[3]),
        reply_sent(a[3], a[4]),
        request_taken(a[4], a[5]),
    ensures
        a[3].client_thread == Some(c1),
        a[4].client_thread is None,
        a[5].client_thread == Some(c2),
        a[5].queue@.len() == 0,
{
    assert(a[2].queue@ =~= seq![c1, c2]);
}

} // verus!
