//! The block-and-wake primitive behind every waitable kernel object.
//!
//! A waiter keeps the threads blocked on its object, first come first
//! served. A signal wakes the first of them that is still blocked; with none
//! left, the signal is lost.
use crate::scheduler::{Scheduler, Switch, ThreadState, has_thread, ids_of, same_processes, suspend_post};
use vstd::prelude::*;

verus! {

/// A thread blocked on a waiter and the word it receives when woken there:
/// its position in the list of objects it waits on.
#[derive(Clone, Copy, Debug, PartialEq, Eq, Structural)]
pub struct WaitEntry {
    pub thread: u64,
    pub tag: usize,
}

/// The index of the first entry of `q`, from `from` on, whose thread is
/// still blocked; `q.len()` where there is none.
pub open spec fn first_blocked(q: Seq<WaitEntry>, sched: Scheduler, from: int) -> int
    decreases q.len() - from,
{
    if from >= q.len() {
        q.len() as int
    } else if sched.is_suspended(q[from].thread) {
        from
    } else {
        first_blocked(q, sched, from + 1)
    }
}

proof fn lemma_first_blocked_range(q: Seq<WaitEntry>, sched: Scheduler, from: int)
    requires
        0 <= from <= q.len(),
    ensures
        from <= first_blocked(q, sched, from) <= q.len(),
        first_blocked(q, sched, from) < q.len() ==> sched.is_suspended(
            q[first_blocked(q, sched, from)].thread,
        ),
    decreases q.len() - from,
{
    if from < q.len() && !sched.is_suspended(q[from].thread) {
        lemma_first_blocked_range(q, sched, from + 1);
    }
}

/// What waking thread `id` with `tag` does to the scheduler: it joins the
/// runnable list right after the running thread, runnable, with `tag` in its
/// return register.
pub open spec fn woken(o: Scheduler, f: Scheduler, id: u64, tag: usize) -> bool {
    &&& f.wf()
    &&& f.runnable() == o.runnable().insert(o.cur() + 1, id)
    &&& f.cur() == o.cur()
    &&& forall|j: int|
        has_thread(o.threads@, id, j) ==> f.threads@ == o.threads@.update(
            j,
            crate::scheduler::Thread {
                id,
                process: o.threads@[j].process,
                state: ThreadState::Runnable,
                return_register: tag,
            },
        )
}

/// What a signal does to a waiter's queue `q` and the scheduler: the first
/// entry whose thread is still blocked is woken with its tag, and it and the
/// entries before it leave the queue; with no such entry the queue empties
/// and nothing is woken.
pub open spec fn signal_post(
    q: Seq<WaitEntry>,
    q2: Seq<WaitEntry>,
    s: Scheduler,
    s2: Scheduler,
    r: Option<u64>,
) -> bool {
    let k = first_blocked(q, s, 0);
    if k < q.len() {
        &&& r == Some(q[k].thread)
        &&& q2 == q.subrange(k + 1, q.len() as int)
        &&& woken(s, s2, q[k].thread, q[k].tag)
    } else {
        &&& r is None
        &&& q2 == Seq::<WaitEntry>::empty()
        &&& s2 == s
    }
}

/// A signal keeps the running thread, and the scheduler's invariant.
pub proof fn lemma_signal_keeps_current(q: Seq<WaitEntry>, q2: Seq<WaitEntry>, s: Scheduler, s2: Scheduler, r: Option<u64>)
    requires
        s.wf(),
        s.runnable().len() > 0,
        signal_post(q, q2, s, s2, r),
    ensures
        s2.wf(),
        s2.current() == s.current(),
        s.runnable().len() <= s2.runnable().len() <= s.runnable().len() + 1,
        first_blocked(q, s, 0) < q.len() ==> s2.runnable().len() == s.runnable().len() + 1,
        same_processes(s.threads@, s2.threads@),
{
    lemma_first_blocked_range(q, s, 0);
    let k = first_blocked(q, s, 0);
    if k < q.len() {
        lemma_suspended_not_runnable(s, q[k].thread);
        lemma_woken_others(s, s2, q[k].thread, q[k].tag);
        lemma_woken_keeps_processes(s, s2, q[k].thread, q[k].tag);
    }
}

/// Waking a registered thread keeps every thread's process.
pub proof fn lemma_woken_keeps_processes(o: Scheduler, f: Scheduler, id: u64, tag: usize)
    requires
        woken(o, f, id, tag),
        ids_of(o.threads@).contains(id),
    ensures
        same_processes(o.threads@, f.threads@),
{
    let j = choose|j: int| 0 <= j < ids_of(o.threads@).len() && ids_of(o.threads@)[j] == id;
    assert(has_thread(o.threads@, id, j));
}

/// A suspended thread is registered and not runnable.
pub proof fn lemma_suspended_not_runnable(sched: Scheduler, id: u64)
    requires
        sched.wf(),
        sched.is_suspended(id),
    ensures
        ids_of(sched.threads@).contains(id),
        !sched.runnable().contains(id),
{
    let i = choose|i: int| has_thread(sched.threads@, id, i) && sched.threads@[i].state == ThreadState::Suspended;
    assert(ids_of(sched.threads@)[i] == id);
}

/// Waking one thread leaves every other thread as blocked as it was, and
/// keeps the running thread.
pub proof fn lemma_woken_others(o: Scheduler, f: Scheduler, id: u64, tag: usize)
    requires
        o.wf(),
        o.runnable().len() > 0,
        woken(o, f, id, tag),
        ids_of(o.threads@).contains(id),
    ensures
        forall|x: u64| x != id ==> (#[trigger] f.is_suspended(x) == o.is_suspended(x)),
        !f.is_suspended(id),
        f.current() == o.current(),
        f.runnable().len() == o.runnable().len() + 1,
        forall|x: u64| #[trigger] f.runnable().contains(x) <==> (o.runnable().contains(x) || x == id),
{
    let oi = ids_of(o.threads@);
    let j = choose|j: int| 0 <= j < oi.len() && oi[j] == id;
    assert(has_thread(o.threads@, id, j));
    o.runnable().insert_ensures(o.cur() + 1, id);
    assert forall|x: u64| x != id implies (#[trigger] f.is_suspended(x) == o.is_suspended(x)) by {
        if f.is_suspended(x) {
            let i = choose|i: int| has_thread(f.threads@, x, i) && f.threads@[i].state == ThreadState::Suspended;
            assert(i != j);
            assert(has_thread(o.threads@, x, i));
        }
        if o.is_suspended(x) {
            let i = choose|i: int| has_thread(o.threads@, x, i) && o.threads@[i].state == ThreadState::Suspended;
            assert(i != j);
            assert(has_thread(f.threads@, x, i));
        }
    }
    if f.is_suspended(id) {
        let i = choose|i: int| has_thread(f.threads@, id, i) && f.threads@[i].state == ThreadState::Suspended;
        assert(ids_of(f.threads@)[i] == id);
        assert(ids_of(f.threads@)[j] == id);
    }
    assert forall|x: u64| #[trigger] f.runnable().contains(x) <==> (o.runnable().contains(x) || x == id) by {
        if f.runnable().contains(x) {
            let a = choose|a: int| 0 <= a < f.runnable().len() && f.runnable()[a] == x;
            if a < o.cur() + 1 {
                assert(o.runnable()[a] == x);
            } else if a > o.cur() + 1 {
                assert(o.runnable()[a - 1] == x);
            }
        }
        if o.runnable().contains(x) {
            let a = choose|a: int| 0 <= a < o.runnable().len() && o.runnable()[a] == x;
            if a < o.cur() + 1 {
                assert(f.runnable()[a] == x);
            } else {
                assert(f.runnable()[a + 1] == x);
            }
        }
        if x == id {
            assert(f.runnable()[o.cur() + 1] == x);
        }
    }
}

/// Wakes thread `id` with `tag` if it is blocked; says whether it was.
pub fn resume(sched: &mut Scheduler, id: u64, tag: usize) -> (r: bool)
    requires
        old(sched).wf(),
        0 < old(sched).runnable().len() < usize::MAX,
    ensures
        final(sched).wf(),
        r == old(sched).is_suspended(id),
        r ==> woken(*old(sched), *final(sched), id, tag),
        !r ==> *final(sched) == *old(sched),
{
    if sched.thread_is_suspended(id) {
        proof {
            lemma_suspended_not_runnable(*sched, id);
        }
        sched.wake(id, tag);
        true
    } else {
        false
    }
}

/// The threads blocked on one object, in arrival order.
pub struct Waiter {
    pub queue: Vec<WaitEntry>,
}

impl Waiter {
    /// A waiter with no thread.
    pub fn new() -> (r: Waiter)
        ensures
            r.queue@ == Seq::<WaitEntry>::empty(),
    {
        Waiter { queue: Vec::new() }
    }

    /// Adds the running thread at the back with `tag`, without blocking it.
    pub fn enqueue_current(&mut self, sched: &Scheduler, tag: usize)
        requires
            sched.wf(),
            sched.runnable().len() > 0,
        ensures
            final(self).queue@ == old(self).queue@.push(WaitEntry { thread: sched.current(), tag }),
    {
        let t = sched.get_current_thread();
        self.queue.push(WaitEntry { thread: t, tag });
    }

    /// Blocks the running thread on this waiter: it joins the back of the
    /// queue with tag 0 and is suspended; the switch to the next thread is
    /// returned.
    pub fn wait(&mut self, sched: &mut Scheduler) -> (r: Switch)
        requires
            old(sched).wf(),
            old(sched).runnable().len() > 1,
        ensures
            final(sched).wf(),
            final(self).queue@ == old(self).queue@.push(
                WaitEntry { thread: old(sched).current(), tag: 0 },
            ),
            suspend_post(*old(sched), *final(sched), old(sched).current(), Some(r)),
            r == (Switch { from: old(sched).current(), to: final(sched).current() }),
            same_processes(old(sched).threads@, final(sched).threads@),
    {
        self.enqueue_current(sched, 0);
        crate::scheduler::suspend_current_thread(sched).unwrap()
    }

    /// Wakes the first queued thread that is still blocked, with the tag it
    /// queued with; the entries before it, and its own, leave the queue. With
    /// no such thread the queue empties and nothing is woken.
    pub fn signal_one(&mut self, sched: &mut Scheduler) -> (r: Option<u64>)
        requires
            old(sched).wf(),
            0 < old(sched).runnable().len() < usize::MAX,
        ensures
            final(sched).wf(),
            signal_post(old(self).queue@, final(self).queue@, *old(sched), *final(sched), r),
    {
        let ghost q = old(self).queue@;
        let ghost s0 = *old(sched);
        let n0 = self.queue.len();
        let mut i: usize = 0;
        proof {
            lemma_first_blocked_range(q, s0, 0);
        }
        while self.queue.len() > 0
            invariant
                *sched == s0,
                s0 == *old(sched),
                q == old(self).queue@,
                s0.wf(),
                0 < s0.runnable().len() < usize::MAX,
                i <= q.len(),
                q.len() == n0,
                self.queue@ == q.subrange(i as int, q.len() as int),
                self.queue@.len() == q.len() - i,
                first_blocked(q, s0, 0) == first_blocked(q, s0, i as int),
            decreases self.queue@.len(),
        {
            let e = self.queue.remove(0);
            proof {
                assert(e == q[i as int]);
                assert(self.queue@ =~= q.subrange(i + 1, q.len() as int));
            }
            if resume(sched, e.thread, e.tag) {
                proof {
                    assert(first_blocked(q, s0, i as int) == i);
                    assert(q[first_blocked(q, s0, 0)] == e);
                    assert(woken(s0, *sched, e.thread, e.tag));
                    assert(self.queue@ == q.subrange(i + 1, q.len() as int));
                }
                return Some(e.thread);
            }
            i = i + 1;
        }
        proof {
            assert(i == q.len());
            assert(self.queue@ =~= Seq::<WaitEntry>::empty());
        }
        None
    }

    /// Whether a signal here would wake a thread: some queued thread is
    /// still blocked.
    pub fn has_blocked(&self, sched: &Scheduler) -> (r: bool)
        requires
            sched.wf(),
        ensures
            r == (first_blocked(self.queue@, *sched, 0) < self.queue@.len()),
    {
        let ghost q = self.queue@;
        let mut i: usize = 0;
        proof {
            lemma_first_blocked_range(q, *sched, 0);
        }
        while i < self.queue.len()
            invariant
                q == self.queue@,
                sched.wf(),
                i <= q.len(),
                first_blocked(q, *sched, 0) == first_blocked(q, *sched, i as int),
            decreases q.len() - i,
        {
            if sched.thread_is_suspended(self.queue[i].thread) {
                return true;
            }
            i = i + 1;
        }
        false
    }

    /// Drops every entry of thread `thread`, keeping the others in order.
    pub fn remove_thread(&mut self, thread: u64)
        ensures
            final(self).queue@ == old(self).queue@.filter(|e: WaitEntry| e.thread != thread),
    {
        let ghost q = old(self).queue@;
        let mut kept: Vec<WaitEntry> = Vec::new();
        let mut i: usize = 0;
        while i < self.queue.len()
            invariant
                self.queue@ == q,
                i <= q.len(),
                kept@ == q.subrange(0, i as int).filter(|e: WaitEntry| e.thread != thread),
            decreases q.len() - i,
        {
            let e = self.queue[i];
            proof {
                assert(q.subrange(0, i + 1) =~= q.subrange(0, i as int).push(e));
                q.subrange(0, i as int).lemma_filter_push(e, |e: WaitEntry| e.thread != thread);
            }
            if e.thread != thread {
                kept.push(e);
            }
            i = i + 1;
        }
        proof {
            assert(q.subrange(0, q.len() as int) =~= q);
        }
        self.queue = kept;
    }
}

} // verus!
