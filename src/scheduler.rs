//! The round-robin scheduler: every registered thread, the runnable ones in
//! the order they take turns, and the index of the one that runs.
//!
//! Context switches themselves are machine work: the operations here say
//! which one to make by returning a `Switch`.
use crate::id_list::{IdList, ThreadList};
use vstd::prelude::*;

verus! {

/// The life cycle of a thread.
#[derive(Clone, Copy, Debug, PartialEq, Eq, Structural)]
pub enum ThreadState {
    Created,
    Runnable,
    Suspended,
    Terminated,
}

/// What the scheduler keeps of a thread: its id, the process it belongs to,
/// its state, and the value of its saved return register.
#[derive(Clone, Copy, Debug, PartialEq, Eq, Structural)]
pub struct Thread {
    pub id: u64,
    pub process: u64,
    pub state: ThreadState,
    pub return_register: usize,
}

/// A context switch from one thread to another.
#[derive(Clone, Copy, Debug, PartialEq, Eq, Structural)]
pub struct Switch {
    pub from: u64,
    pub to: u64,
}

/// The ids of `threads`, in order.
pub open spec fn ids_of(threads: Seq<Thread>) -> Seq<u64> {
    threads.map_values(|t: Thread| t.id)
}

/// Whether the thread with id `id` is the `i`-th of `threads`.
pub open spec fn has_thread(threads: Seq<Thread>, id: u64, i: int) -> bool {
    0 <= i < threads.len() && threads[i].id == id
}

/// `t` with another state.
pub open spec fn with_state(t: Thread, state: ThreadState) -> Thread {
    Thread { id: t.id, process: t.process, state, return_register: t.return_register }
}

/// The switch between two threads, none when they are the same.
pub open spec fn switch_between(from: u64, to: u64) -> Option<Switch> {
    if from == to {
        None
    } else {
        Some(Switch { from, to })
    }
}

/// The index of the running thread after the runnable thread at `i` left a
/// list that now has `len` entries.
pub open spec fn index_after_removal(cur: int, i: int, len: int) -> int {
    if cur > i {
        cur - 1
    } else if cur > len - 1 {
        0
    } else {
        cur
    }
}

/// Removing a distinct element keeps the others, and no duplicates appear.
proof fn lemma_remove_distinct(s: Seq<u64>, i: int)
    requires
        s.no_duplicates(),
        0 <= i < s.len(),
    ensures
        s.remove(i).no_duplicates(),
        forall|x: u64| #[trigger] s.remove(i).contains(x) <==> (s.contains(x) && x != s[i]),
{
    s.remove_ensures(i);
    let r = s.remove(i);
    assert forall|x: u64| #[trigger] r.contains(x) <==> (s.contains(x) && x != s[i]) by {
        if r.contains(x) {
            let j = choose|j: int| 0 <= j < r.len() && r[j] == x;
            if j < i {
                assert(s[j] == x);
            } else {
                assert(s[j + 1] == x);
            }
        }
        if s.contains(x) && x != s[i] {
            let j = choose|j: int| 0 <= j < s.len() && s[j] == x;
            if j < i {
                assert(r[j] == x);
            } else {
                assert(r[j - 1] == x);
            }
        }
    }
}

/// Inserting a new element keeps the others, and no duplicates appear.
proof fn lemma_insert_distinct(s: Seq<u64>, p: int, y: u64)
    requires
        s.no_duplicates(),
        !s.contains(y),
        0 <= p <= s.len(),
    ensures
        s.insert(p, y).no_duplicates(),
        forall|x: u64| #[trigger] s.insert(p, y).contains(x) <==> (s.contains(x) || x == y),
{
    s.insert_ensures(p, y);
    let r = s.insert(p, y);
    assert forall|x: u64| #[trigger] r.contains(x) <==> (s.contains(x) || x == y) by {
        if r.contains(x) {
            let j = choose|j: int| 0 <= j < r.len() && r[j] == x;
            if j < p {
                assert(s[j] == x);
            } else if j > p {
                assert(s[j - 1] == x);
            }
        }
        if s.contains(x) {
            let j = choose|j: int| 0 <= j < s.len() && s[j] == x;
            if j < p {
                assert(r[j] == x);
            } else {
                assert(r[j + 1] == x);
            }
        }
        if x == y {
            assert(r[p] == x);
        }
    }
    assert forall|a: int, b: int| 0 <= a < r.len() && 0 <= b < r.len() && a != b implies r[a]
        != r[b] by {
        if a != p && b != p {
            let sa = if a < p { a } else { a - 1 };
            let sb = if b < p { b } else { b - 1 };
            assert(r[a] == s[sa] && r[b] == s[sb]);
        } else if a == p {
            let sb = if b < p { b } else { b - 1 };
            assert(r[b] == s[sb]);
        } else {
            let sa = if a < p { a } else { a - 1 };
            assert(r[a] == s[sa]);
        }
    }
}

/// The switch between two threads, none when they are the same.
fn switch_thread(from: u64, to: u64) -> (r: Option<Switch>)
    ensures
        r == switch_between(from, to),
{
    if from == to {
        None
    } else {
        Some(Switch { from, to })
    }
}

/// What suspending thread `id` does: nothing to a thread that is not
/// runnable; otherwise it leaves the runnable list, is marked suspended, the
/// index of the running thread follows the running thread where that one
/// stays, and a switch is returned where it was the one running.
pub open spec fn suspend_post(o: Scheduler, f: Scheduler, id: u64, r: Option<Switch>) -> bool {
    &&& !o.runnable().contains(id) ==> {
        &&& f.threads@ == o.threads@
        &&& f.runnable() == o.runnable()
        &&& f.cur() == o.cur()
        &&& r is None
    }
    &&& forall|i: int|
        0 <= i < o.runnable().len() && o.runnable()[i] == id ==> {
            &&& f.runnable() == o.runnable().remove(i)
            &&& f.cur() == index_after_removal(o.cur(), i, o.runnable().len() - 1)
            &&& r == if i == o.cur() {
                Some(Switch { from: id, to: f.current() })
            } else {
                None::<Switch>
            }
        }
    &&& forall|j: int|
        o.runnable().contains(id) && has_thread(o.threads@, id, j) ==> f.threads@
            == o.threads@.update(j, with_state(o.threads@[j], ThreadState::Suspended))
}

/// Every thread ever registered, the runnable ones in turn order, and the
/// index of the running one among those.
pub struct Scheduler {
    pub threads: ThreadList,
    pub runnable_threads: IdList,
    pub current_thread_index: usize,
}

impl Scheduler {
    /// The runnable threads, in turn order.
    pub open spec fn runnable(&self) -> Seq<u64> {
        self.runnable_threads@
    }

    /// The index of the running thread among the runnable ones.
    pub open spec fn cur(&self) -> int {
        self.current_thread_index as int
    }

    /// The running thread.
    pub open spec fn current(&self) -> u64 {
        self.runnable()[self.cur()]
    }

    /// Whether thread `id` is registered and blocked.
    pub open spec fn is_suspended(&self, id: u64) -> bool {
        exists|i: int| has_thread(self.threads@, id, i) && self.threads@[i].state == ThreadState::Suspended
    }

    /// The scheduler's invariant: ids are unique, the runnable list holds
    /// exactly the registered threads whose state is `Runnable`, each once,
    /// and the index of the running thread is in range.
    pub open spec fn wf(&self) -> bool {
        &&& ids_of(self.threads@).no_duplicates()
        &&& self.runnable().no_duplicates()
        &&& if self.runnable().len() == 0 {
            self.current_thread_index == 0
        } else {
            self.current_thread_index < self.runnable().len()
        }
        &&& forall|i: int|
            0 <= i < self.threads@.len() ==> ((#[trigger] self.threads@[i]).state
                == ThreadState::Runnable <==> self.runnable().contains(self.threads@[i].id))
        &&& forall|k: int|
            0 <= k < self.runnable().len() ==> ids_of(self.threads@).contains(
                #[trigger] self.runnable()[k],
            )
    }

    /// A scheduler with no thread.
    pub fn new() -> (r: Scheduler)
        ensures
            r.wf(),
            r.threads@.len() == 0,
            r.runnable().len() == 0,
    {
        Scheduler { threads: ThreadList::new(), runnable_threads: IdList::new(), current_thread_index: 0 }
    }

    /// Where the thread with id `id` stands among the registered ones.
    pub fn thread_index(&self, id: u64) -> (r: Option<usize>)
        ensures
            match r {
                Some(i) => has_thread(self.threads@, id, i as int),
                None => !ids_of(self.threads@).contains(id),
            },
    {
        let mut i: usize = 0;
        while i < self.threads.len()
            invariant
                i <= self.threads@.len(),
                forall|j: int| 0 <= j < i ==> (#[trigger] self.threads@[j]).id != id,
            decreases self.threads@.len() - i,
        {
            if self.threads.get(i).id == id {
                return Some(i);
            }
            i = i + 1;
        }
        proof {
            if ids_of(self.threads@).contains(id) {
                let j = choose|j: int| 0 <= j < ids_of(self.threads@).len() && ids_of(self.threads@)[j] == id;
                assert(self.threads@[j].id == id);
            }
        }
        None
    }

    /// Where thread `id` stands among the runnable ones.
    pub fn runnable_position(&self, id: u64) -> (r: Option<usize>)
        ensures
            match r {
                Some(i) => i < self.runnable().len() && self.runnable()[i as int] == id,
                None => !self.runnable().contains(id),
            },
    {
        let n = self.runnable_threads.len();
        let mut i: usize = 0;
        while i < n
            invariant
                n == self.runnable().len(),
                i <= n,
                forall|j: int| 0 <= j < i ==> self.runnable()[j] != id,
            decreases n - i,
        {
            if self.runnable_threads.get(i) == id {
                return Some(i);
            }
            i = i + 1;
        }
        None
    }

    /// Whether thread `id` is registered and blocked.
    pub fn thread_is_suspended(&self, id: u64) -> (r: bool)
        requires
            self.wf(),
        ensures
            r == self.is_suspended(id),
    {
        match self.thread_index(id) {
            Some(i) => {
                proof {
                    if self.is_suspended(id) {
                        let j = choose|j: int| has_thread(self.threads@, id, j) && self.threads@[j].state == ThreadState::Suspended;
                        assert(ids_of(self.threads@)[j] == id && ids_of(self.threads@)[i as int] == id);
                    }
                }
                self.threads.get(i).state == ThreadState::Suspended
            },
            None => {
                proof {
                    if self.is_suspended(id) {
                        let j = choose|j: int| has_thread(self.threads@, id, j) && self.threads@[j].state == ThreadState::Suspended;
                        assert(ids_of(self.threads@)[j] == id);
                    }
                }
                false
            },
        }
    }

    /// How many threads are registered.
    pub fn thread_count(&self) -> (r: usize)
        ensures
            r == self.threads@.len(),
    {
        self.threads.len()
    }

    /// The `i`-th registered thread.
    pub fn thread_at(&self, i: usize) -> (r: Thread)
        requires
            i < self.threads@.len(),
        ensures
            r == self.threads@[i as int],
    {
        self.threads.get(i)
    }

    /// How many threads are runnable.
    pub fn runnable_count(&self) -> (r: usize)
        ensures
            r == self.runnable().len(),
    {
        self.runnable_threads.len()
    }

    /// The running thread.
    pub fn get_current_thread(&self) -> (r: u64)
        requires
            self.wf(),
            self.runnable().len() > 0,
        ensures
            r == self.current(),
    {
        self.runnable_threads.get(self.current_thread_index)
    }

    /// Moves the turn to the next runnable thread, wrapping around, and
    /// returns it.
    pub fn get_next_thread(&mut self) -> (r: u64)
        requires
            old(self).wf(),
            old(self).runnable().len() > 0,
        ensures
            final(self).wf(),
            final(self).threads@ == old(self).threads@,
            final(self).runnable() == old(self).runnable(),
            final(self).cur() == (old(self).cur() + 1) % (old(self).runnable().len() as int),
            r == final(self).current(),
    {
        proof {
            let n = old(self).runnable().len() as int;
            vstd::arithmetic::div_mod::lemma_mod_self_0(n);
            if old(self).cur() + 1 < n {
                vstd::arithmetic::div_mod::lemma_small_mod((old(self).cur() + 1) as nat, n as nat);
            }
        }
        if self.current_thread_index == self.runnable_threads.len() - 1 {
            self.current_thread_index = 0;
        } else {
            self.current_thread_index = self.current_thread_index + 1;
        }
        self.runnable_threads.get(self.current_thread_index)
    }

    /// A timer tick: the next runnable thread gets the turn. Nothing happens
    /// with no runnable thread.
    pub fn tick(&mut self) -> (r: Option<Switch>)
        requires
            old(self).wf(),
        ensures
            final(self).wf(),
            final(self).threads@ == old(self).threads@,
            final(self).runnable() == old(self).runnable(),
            old(self).runnable().len() == 0 ==> final(self).cur() == old(self).cur() && r is None,
            old(self).runnable().len() > 0 ==> {
                &&& final(self).cur() == (old(self).cur() + 1) % (old(self).runnable().len() as int)
                &&& r == switch_between(old(self).current(), final(self).current())
            },
    {
        if self.runnable_threads.len() == 0 {
            return None;
        }
        let this_thread = self.get_current_thread();
        let next = self.get_next_thread();
        switch_thread(this_thread, next)
    }

    /// Sets the state of thread `id`, if it is registered.
    fn set_state(&mut self, id: u64, state: ThreadState)
        requires
            ids_of(old(self).threads@).no_duplicates(),
        ensures
            final(self).runnable_threads == old(self).runnable_threads,
            final(self).current_thread_index == old(self).current_thread_index,
            forall|i: int|
                has_thread(old(self).threads@, id, i) ==> final(self).threads@ == old(
                    self,
                ).threads@.update(i, with_state(old(self).threads@[i], state)),
            !ids_of(old(self).threads@).contains(id) ==> final(self).threads@ == old(self).threads@,
            ids_of(final(self).threads@) == ids_of(old(self).threads@),
    {
        match self.thread_index(id) {
            Some(i) => {
                let t = self.threads.get(i);
                self.threads.set(
                    i,
                    Thread { id: t.id, process: t.process, state, return_register: t.return_register },
                );
                proof {
                    let o = old(self).threads@;
                    assert(ids_of(o)[i as int] == id);
                    assert(self.threads@ == o.update(i as int, with_state(o[i as int], state)));
                    assert forall|j: int| has_thread(o, id, j) implies j == i by {
                        assert(ids_of(o)[j] == id && ids_of(o)[i as int] == id);
                    }
                    assert(ids_of(self.threads@) =~= ids_of(o));
                }
            },
            None => {
                proof {
                    let o = old(self).threads@;
                    assert forall|j: int| has_thread(o, id, j) implies false by {
                        assert(ids_of(o)[j] == id);
                    }
                }
            },
        }
    }
}

impl Scheduler {
    /// Takes thread `id` out of the runnable list and marks it suspended. If
    /// it was running, the turn passes to the thread that now stands at the
    /// running index, and the switch to it is returned. A thread that is not
    /// runnable is left alone. The last runnable thread cannot be suspended.
    pub fn suspend(&mut self, id: u64) -> (r: Option<Switch>)
        requires
            old(self).wf(),
            old(self).runnable().contains(id) ==> old(self).runnable().len() > 1,
        ensures
            final(self).wf(),
            suspend_post(*old(self), *final(self), id, r),
    {
        match self.runnable_position(id) {
            Some(runnable_index) => {
                let ghost o = *old(self);
                let idx = self.current_thread_index;
                proof {
                    assert(ids_of(o.threads@).contains(o.runnable()[runnable_index as int]));
                    lemma_remove_distinct(o.runnable(), runnable_index as int);
                    o.runnable().remove_ensures(runnable_index as int);
                    assert forall|i: int|
                        0 <= i < o.runnable().len() && o.runnable()[i] == id implies i
                        == runnable_index by {}
                }
                self.set_state(id, ThreadState::Suspended);
                self.runnable_threads.remove(runnable_index);
                let len = self.runnable_threads.len();
                if self.current_thread_index > runnable_index {
                    self.current_thread_index = self.current_thread_index - 1;
                } else if self.current_thread_index > len - 1 {
                    self.current_thread_index = 0;
                }
                proof {
                    let t = self.threads@;
                    let oi = ids_of(o.threads@);
                    let j = choose|j: int| 0 <= j < oi.len() && oi[j] == id;
                    assert(has_thread(o.threads@, id, j));
                    assert(t == o.threads@.update(j, with_state(o.threads@[j], ThreadState::Suspended)));
                    assert forall|i: int| 0 <= i < t.len() implies ((#[trigger] t[i]).state
                        == ThreadState::Runnable <==> self.runnable().contains(t[i].id)) by {
                        if i != j {
                            assert(o.threads@[i] == t[i]);
                            assert(oi[i] == t[i].id);
                            assert(o.runnable().contains(t[i].id) ==> t[i].id != id);
                        }
                    }
                    assert forall|k: int| 0 <= k < self.runnable().len() implies ids_of(
                        self.threads@,
                    ).contains(#[trigger] self.runnable()[k]) by {
                        assert(o.runnable().contains(self.runnable()[k]));
                        let m = choose|m: int| 0 <= m < o.runnable().len() && o.runnable()[m] == self.runnable()[k];
                        assert(ids_of(o.threads@).contains(o.runnable()[m]));
                    }
                }
                if runnable_index == idx {
                    let next = self.get_current_thread();
                    proof {
                        assert(!self.runnable().contains(id));
                        assert(self.runnable().contains(self.runnable()[self.cur()]));
                    }
                    return switch_thread(id, next);
                }
                None
            },
            None => None,
        }
    }
}

impl Scheduler {
    /// Makes the suspended thread `id` runnable again, right after the
    /// running thread, with `tag` in its return register so that the call it
    /// blocked in returns `tag`.
    pub fn wake(&mut self, id: u64, tag: usize)
        requires
            old(self).wf(),
            ids_of(old(self).threads@).contains(id),
            !old(self).runnable().contains(id),
            0 < old(self).runnable().len() < usize::MAX,
        ensures
            final(self).wf(),
            final(self).runnable() == old(self).runnable().insert(old(self).cur() + 1, id),
            final(self).cur() == old(self).cur(),
            forall|j: int|
                has_thread(old(self).threads@, id, j) ==> final(self).threads@ == old(
                    self,
                ).threads@.update(
                    j,
                    Thread {
                        id,
                        process: old(self).threads@[j].process,
                        state: ThreadState::Runnable,
                        return_register: tag,
                    },
                ),
    {
        let ghost o = *old(self);
        set_thread_context_tag(self, id, tag);
        let ghost mid = *self;
        self.set_state(id, ThreadState::Runnable);
        self.runnable_threads.insert(self.current_thread_index + 1, id);
        proof {
            let oi = ids_of(o.threads@);
            let j = choose|j: int| 0 <= j < oi.len() && oi[j] == id;
            assert(has_thread(o.threads@, id, j));
            assert(has_thread(mid.threads@, id, j));
            assert forall|j2: int| has_thread(o.threads@, id, j2) implies j2 == j by {
                assert(oi[j2] == id);
            }
            lemma_insert_distinct(o.runnable(), o.cur() + 1, id);
            o.runnable().insert_ensures(o.cur() + 1, id);
            let t = self.threads@;
            assert(t.len() == o.threads@.len());
            assert forall|i: int| 0 <= i < t.len() implies ((#[trigger] t[i]).state
                == ThreadState::Runnable <==> self.runnable().contains(t[i].id)) by {
                if i != j {
                    assert(o.threads@[i] == t[i]);
                    assert(oi[i] == t[i].id);
                }
            }
            assert forall|k: int| 0 <= k < self.runnable().len() implies ids_of(
                self.threads@,
            ).contains(#[trigger] self.runnable()[k]) by {
                let x = self.runnable()[k];
                assert(self.runnable().contains(x));
                if x != id {
                    let m = choose|m: int| 0 <= m < o.runnable().len() && o.runnable()[m] == x;
                    assert(ids_of(o.threads@).contains(o.runnable()[m]));
                }
            }
        }
    }

    /// Ends the running thread: it leaves the runnable list and the
    /// register of threads, and the turn passes on.
    pub fn terminate_current_thread(&mut self) -> (r: Option<Switch>)
        requires
            old(self).wf(),
            old(self).runnable().len() > 1,
        ensures
            final(self).wf(),
            final(self).runnable() == old(self).runnable().remove(old(self).cur()),
            final(self).cur() == index_after_removal(
                old(self).cur(),
                old(self).cur(),
                old(self).runnable().len() - 1,
            ),
            r == Some(Switch { from: old(self).current(), to: final(self).current() }),
            forall|j: int|
                has_thread(old(self).threads@, old(self).current(), j) ==> final(self).threads@
                    == old(self).threads@.remove(j),
    {
        let ghost o = *old(self);
        let this_thread = self.get_current_thread();
        proof {
            assert(o.runnable().contains(this_thread));
        }
        let r = self.suspend(this_thread);
        let ghost mid = *self;
        let ghost oi = ids_of(o.threads@);
        let ghost j = choose|j: int| 0 <= j < oi.len() && oi[j] == this_thread;
        proof {
            assert(ids_of(o.threads@).contains(this_thread));
            assert(has_thread(o.threads@, this_thread, j));
            assert(mid.threads@ == o.threads@.update(j, with_state(o.threads@[j], ThreadState::Suspended)));
            assert(ids_of(mid.threads@) =~= oi);
            assert forall|j2: int| has_thread(o.threads@, this_thread, j2) implies j2 == j by {
                assert(oi[j2] == this_thread);
            }
        }
        match self.thread_index(this_thread) {
            Some(thread_index) => {
                self.threads.remove(thread_index);
                proof {
                    assert(ids_of(mid.threads@)[thread_index as int] == this_thread);
                    assert(thread_index == j);
                    let mi = ids_of(mid.threads@);
                    lemma_remove_distinct(mi, thread_index as int);
                    assert(ids_of(self.threads@) =~= mi.remove(thread_index as int));
                    assert(self.threads@ =~= o.threads@.remove(thread_index as int));
                    mid.threads@.remove_ensures(thread_index as int);
                    assert forall|k: int| 0 <= k < self.runnable().len() implies ids_of(
                        self.threads@,
                    ).contains(#[trigger] self.runnable()[k]) by {
                        assert(mi.contains(self.runnable()[k]));
                        assert(self.runnable().contains(self.runnable()[k]));
                    }
                    let t = self.threads@;
                    assert forall|i: int| 0 <= i < t.len() implies ((#[trigger] t[i]).state
                        == ThreadState::Runnable <==> self.runnable().contains(t[i].id)) by {
                        if i < thread_index {
                            assert(t[i] == mid.threads@[i]);
                        } else {
                            assert(t[i] == mid.threads@[i + 1]);
                        }
                    }
                }
            },
            None => {},
        }
        r
    }
}

/// Writes `tag` into the saved return register of thread `id`.
fn set_thread_context_tag(sched: &mut Scheduler, id: u64, tag: usize)
    requires
        ids_of(old(sched).threads@).no_duplicates(),
    ensures
        final(sched).runnable_threads == old(sched).runnable_threads,
        final(sched).current_thread_index == old(sched).current_thread_index,
        forall|i: int|
            has_thread(old(sched).threads@, id, i) ==> final(sched).threads@ == old(
                sched,
            ).threads@.update(
                i,
                Thread {
                    id: old(sched).threads@[i].id,
                    process: old(sched).threads@[i].process,
                    state: old(sched).threads@[i].state,
                    return_register: tag,
                },
            ),
        !ids_of(old(sched).threads@).contains(id) ==> final(sched).threads@ == old(sched).threads@,
        ids_of(final(sched).threads@) == ids_of(old(sched).threads@),
{
    match sched.thread_index(id) {
        Some(i) => {
            let t = sched.threads.get(i);
            sched.threads.set(
                i,
                Thread { id: t.id, process: t.process, state: t.state, return_register: tag },
            );
            proof {
                let o = old(sched).threads@;
                assert(ids_of(o)[i as int] == id);
                assert forall|j: int| has_thread(o, id, j) implies j == i by {
                    assert(ids_of(o)[j] == id);
                }
                assert(ids_of(sched.threads@) =~= ids_of(o));
            }
        },
        None => {
            proof {
                let o = old(sched).threads@;
                assert forall|j: int| has_thread(o, id, j) implies false by {
                    assert(ids_of(o)[j] == id);
                }
            }
        },
    }
}

/// Whether `x` comes before `y` in `o`.
pub open spec fn comes_before(o: Seq<u64>, x: u64, y: u64) -> bool {
    exists|a: int, b: int| 0 <= a < b < o.len() && o[a] == x && o[b] == y
}

/// Whether `f` lists its elements in the order that `o` has them.
pub open spec fn keeps_order(o: Seq<u64>, f: Seq<u64>) -> bool {
    forall|a: int, b: int| 0 <= a < b < f.len() ==> #[trigger] comes_before(o, f[a], f[b])
}

proof fn lemma_keeps_order_remove(o: Seq<u64>, f: Seq<u64>, i: int)
    requires
        keeps_order(o, f),
        0 <= i < f.len(),
    ensures
        keeps_order(o, f.remove(i)),
{
    f.remove_ensures(i);
    let g = f.remove(i);
    assert forall|a: int, b: int| 0 <= a < b < g.len() implies #[trigger] comes_before(o, g[a], g[b]) by {
        let a1 = if a < i { a } else { a + 1 };
        let b1 = if b < i { b } else { b + 1 };
        assert(g[a] == f[a1] && g[b] == f[b1]);
        assert(comes_before(o, f[a1], f[b1]));
    }
}

proof fn lemma_keeps_order_self(o: Seq<u64>)
    ensures
        keeps_order(o, o),
{
    assert forall|a: int, b: int| 0 <= a < b < o.len() implies #[trigger] comes_before(o, o[a], o[b]) by {
        assert(o[a] == o[a] && o[b] == o[b]);
    }
}

/// A suspended thread stays suspended when another thread's record changes
/// or goes.
proof fn lemma_still_suspended(a: Scheduler, b: Scheduler, y: u64, j: int)
    requires
        a.is_suspended(y),
        0 <= j < a.threads@.len(),
        a.threads@[j].id != y,
        (b.threads@ == a.threads@.remove(j)) || (exists|t: Thread| b.threads@ == a.threads@.update(j, t)),
    ensures
        b.is_suspended(y),
{
    let k = choose|k: int| has_thread(a.threads@, y, k) && a.threads@[k].state == ThreadState::Suspended;
    if b.threads@ == a.threads@.remove(j) {
        a.threads@.remove_ensures(j);
        if k < j {
            assert(has_thread(b.threads@, y, k));
        } else {
            assert(has_thread(b.threads@, y, k - 1));
        }
    } else {
        assert(has_thread(b.threads@, y, k));
    }
}

/// Changing or removing the record of another thread does not change
/// whether thread `y` is suspended.
proof fn lemma_suspended_same(a: Scheduler, b: Scheduler, y: u64, j: int)
    requires
        0 <= j < a.threads@.len(),
        a.threads@[j].id != y,
        (b.threads@ == a.threads@.remove(j)) || (exists|t: Thread| t.id != y && b.threads@ == a.threads@.update(j, t)),
    ensures
        b.is_suspended(y) == a.is_suspended(y),
{
    if a.is_suspended(y) {
        lemma_still_suspended(a, b, y, j);
    }
    if b.is_suspended(y) {
        let k = choose|k: int| has_thread(b.threads@, y, k) && b.threads@[k].state == ThreadState::Suspended;
        if b.threads@ == a.threads@.remove(j) {
            a.threads@.remove_ensures(j);
            if k < j {
                assert(has_thread(a.threads@, y, k));
            } else {
                assert(has_thread(a.threads@, y, k + 1));
            }
        } else {
            assert(k != j);
            assert(has_thread(a.threads@, y, k));
        }
    }
}

/// The process of thread `id`.
pub open spec fn process_of(threads: Seq<Thread>, id: u64) -> u64 {
    threads[choose|i: int| has_thread(threads, id, i)].process
}

pub proof fn lemma_process_of(threads: Seq<Thread>, id: u64, i: int)
    requires
        ids_of(threads).no_duplicates(),
        has_thread(threads, id, i),
    ensures
        process_of(threads, id) == threads[i].process,
{
    let j = choose|j: int| has_thread(threads, id, j);
    assert(ids_of(threads)[i] == id && ids_of(threads)[j] == id);
}

/// Taking out a runnable thread other than the running one leaves the
/// running one current.
pub proof fn lemma_remove_keeps_current(r: Seq<u64>, cur: int, i: int)
    requires
        0 <= cur < r.len(),
        0 <= i < r.len(),
        i != cur,
    ensures
        0 <= index_after_removal(cur, i, r.len() - 1) < r.len() - 1,
        r.remove(i)[index_after_removal(cur, i, r.len() - 1)] == r[cur],
{
    r.remove_ensures(i);
}

/// Suspending and then waking a thread `u` other than the running thread
/// `t` leaves `t` running: the runnable list after both steps, at the index
/// the steps leave, still holds `t`. (Where `u` was not runnable, suspending
/// it changes nothing and waking it inserts it after `t`.)
pub proof fn lemma_suspend_wake_keeps_current(r: Seq<u64>, cur: int, u: u64)
    requires
        r.no_duplicates(),
        0 <= cur < r.len(),
        r[cur] != u,
    ensures
        forall|i: int|
            0 <= i < r.len() && r[i] == u ==> {
                let r1 = r.remove(i);
                let c1 = index_after_removal(cur, i, r.len() - 1);
                r1.insert(c1 + 1, u)[c1] == r[cur]
            },
        !r.contains(u) ==> r.insert(cur + 1, u)[cur] == r[cur],
{
    assert forall|i: int| 0 <= i < r.len() && r[i] == u implies {
        let r1 = r.remove(i);
        let c1 = index_after_removal(cur, i, r.len() - 1);
        r1.insert(c1 + 1, u)[c1] == r[cur]
    } by {
        lemma_remove_keeps_current(r, cur, i);
        let r1 = r.remove(i);
        let c1 = index_after_removal(cur, i, r.len() - 1);
        r1.insert_ensures(c1 + 1, u);
    }
    r.insert_ensures(cur + 1, u);
}

/// The running index after `k` ticks from `cur` among `n` runnable threads.
pub open spec fn index_after_ticks(cur: int, n: int, k: nat) -> int
    decreases k,
{
    if k == 0 {
        cur
    } else {
        (index_after_ticks(cur, n, (k - 1) as nat) + 1) % n
    }
}

proof fn lemma_index_after_ticks(cur: int, n: int, k: nat)
    requires
        0 <= cur < n,
    ensures
        index_after_ticks(cur, n, k) == (cur + k) % n,
    decreases k,
{
    if k > 0 {
        lemma_index_after_ticks(cur, n, (k - 1) as nat);
        vstd::arithmetic::div_mod::lemma_add_mod_noop_right(1, cur + k - 1, n);
    } else {
        vstd::arithmetic::div_mod::lemma_small_mod(cur as nat, n as nat);
    }
}

/// Whether one of the `n` ticks after `cur` gives the turn to index `j`.
pub open spec fn turn_comes(cur: int, n: int, j: int) -> bool {
    exists|k: nat| 1 <= k <= n && #[trigger] index_after_ticks(cur, n, k) == j
}

/// Round robin: with `n` runnable threads and no suspension, the `n` ticks
/// after `cur` give the turn to every index exactly once.
pub proof fn lemma_round_robin(n: int, cur: int)
    requires
        0 <= cur < n,
    ensures
        forall|j: int| 0 <= j < n ==> #[trigger] turn_comes(cur, n, j),
        forall|k1: nat, k2: nat|
            1 <= k1 < k2 <= n ==> #[trigger] index_after_ticks(cur, n, k1) != #[trigger] index_after_ticks(cur, n, k2),
{
    assert forall|j: int| 0 <= j < n implies #[trigger] turn_comes(cur, n, j) by {
        let k: nat = if j > cur { (j - cur) as nat } else { (j - cur + n) as nat };
        lemma_index_after_ticks(cur, n, k);
        if j > cur {
            vstd::arithmetic::div_mod::lemma_small_mod(j as nat, n as nat);
        } else {
            vstd::arithmetic::div_mod::lemma_mod_add_multiples_vanish(j, n);
            vstd::arithmetic::div_mod::lemma_small_mod(j as nat, n as nat);
        }
        assert(index_after_ticks(cur, n, k) == j);
    }
    assert forall|k1: nat, k2: nat| 1 <= k1 < k2 <= n implies #[trigger] index_after_ticks(cur, n, k1) != #[trigger] index_after_ticks(cur, n, k2) by {
        lemma_index_after_ticks(cur, n, k1);
        lemma_index_after_ticks(cur, n, k2);
        if (cur + k1) % n == (cur + k2) % n {
            vstd::arithmetic::div_mod::lemma_fundamental_div_mod(cur + k1, n);
            vstd::arithmetic::div_mod::lemma_fundamental_div_mod(cur + k2, n);
            let q1 = (cur + k1) / n;
            let q2 = (cur + k2) / n;
            assert(k2 - k1 == n * (q2 - q1)) by (nonlinear_arith)
                requires
                    cur + k1 == n * q1 + (cur + k1) % n,
                    cur + k2 == n * q2 + (cur + k2) % n,
                    (cur + k1) % n == (cur + k2) % n,
            ;
            assert(false) by (nonlinear_arith)
                requires
                    k2 - k1 == n * (q2 - q1),
                    0 < k2 - k1 < n,
            ;
        }
    }
}

/// What one tick does: the threads and the runnable list stay, and the turn
/// passes to the next runnable thread, round the list.
pub open spec fn ticked(o: Scheduler, f: Scheduler) -> bool {
    &&& f.threads@ == o.threads@
    &&& f.runnable() == o.runnable()
    &&& o.runnable().len() == 0 ==> f.cur() == o.cur()
    &&& o.runnable().len() > 0 ==> f.cur() == index_after_ticks(o.cur(), o.runnable().len() as int, 1)
}

proof fn lemma_ticks_prefix(ss: Seq<Scheduler>, i: int)
    requires
        0 <= i < ss.len(),
        ss[0].runnable().len() > 0,
        forall|j: int| 0 <= j < ss.len() - 1 ==> #[trigger] ticked(ss[j], ss[j + 1]),
    ensures
        ss[i].runnable() == ss[0].runnable(),
        ss[i].threads@ == ss[0].threads@,
        ss[i].cur() == index_after_ticks(ss[0].cur(), ss[0].runnable().len() as int, i as nat),
    decreases i,
{
    if i > 0 {
        lemma_ticks_prefix(ss, i - 1);
        let j = i - 1;
        assert(ticked(ss[j], ss[j + 1]));
        assert(index_after_ticks(ss[j].cur(), ss[0].runnable().len() as int, 0) == ss[j].cur());
    }
}

/// Whether thread `x` runs in one of the states of `ss` after the first.
pub open spec fn gets_turn(ss: Seq<Scheduler>, x: u64) -> bool {
    exists|k: int| 1 <= k < ss.len() && (#[trigger] ss[k]).current() == x
}

/// Fairness: `n` ticks in a row over `n` runnable threads, with nothing in
/// between, give the turn to every runnable thread exactly once and leave
/// it where it started; the runnable list does not change.
pub proof fn lemma_fair_ticks(ss: Seq<Scheduler>)
    requires
        ss.len() >= 2,
        ss[0].wf(),
        ss[0].runnable().len() == ss.len() - 1,
        forall|i: int| 0 <= i < ss.len() - 1 ==> #[trigger] ticked(ss[i], ss[i + 1]),
    ensures
        forall|i: int| 0 <= i < ss.len() ==> (#[trigger] ss[i]).runnable() == ss[0].runnable(),
        ss[ss.len() - 1].cur() == ss[0].cur(),
        forall|j: int| 0 <= j < ss[0].runnable().len() ==> #[trigger] gets_turn(ss, ss[0].runnable()[j]),
        forall|k1: int, k2: int|
            1 <= k1 < k2 < ss.len() ==> (#[trigger] ss[k1]).current() != (#[trigger] ss[k2]).current(),
{
    let n = ss[0].runnable().len() as int;
    let c = ss[0].cur();
    assert forall|i: int| 0 <= i < ss.len() implies (#[trigger] ss[i]).runnable() == ss[0].runnable() by {
        lemma_ticks_prefix(ss, i);
    }
    lemma_round_robin(n, c);
    lemma_ticks_prefix(ss, n);
    lemma_index_after_ticks(c, n, n as nat);
    vstd::arithmetic::div_mod::lemma_mod_add_multiples_vanish(c, n);
    vstd::arithmetic::div_mod::lemma_small_mod(c as nat, n as nat);
    assert forall|j: int| 0 <= j < n implies #[trigger] gets_turn(ss, ss[0].runnable()[j]) by {
        assert(turn_comes(c, n, j));
        let k = choose|k: nat| 1 <= k <= n && #[trigger] index_after_ticks(c, n, k) == j;
        lemma_ticks_prefix(ss, k as int);
        assert(ss[k as int].current() == ss[0].runnable()[j]);
    }
    assert forall|k1: int, k2: int| 1 <= k1 < k2 < ss.len() implies (#[trigger] ss[k1]).current()
        != (#[trigger] ss[k2]).current() by {
        lemma_ticks_prefix(ss, k1);
        lemma_ticks_prefix(ss, k2);
        lemma_index_after_ticks(c, n, k1 as nat);
        lemma_index_after_ticks(c, n, k2 as nat);
        assert(index_after_ticks(c, n, k1 as nat) != index_after_ticks(c, n, k2 as nat));
        vstd::arithmetic::div_mod::lemma_mod_bound(c + k1, n);
        vstd::arithmetic::div_mod::lemma_mod_bound(c + k2, n);
    }
}

/// A timer tick on the scheduler.
pub fn tick(sched: &mut Scheduler) -> (r: Option<Switch>)
    requires
        old(sched).wf(),
    ensures
        final(sched).wf(),
        ticked(*old(sched), *final(sched)),
        final(sched).threads@ == old(sched).threads@,
        final(sched).runnable() == old(sched).runnable(),
        old(sched).runnable().len() == 0 ==> final(sched).cur() == old(sched).cur() && r is None,
        old(sched).runnable().len() > 0 ==> {
            &&& final(sched).cur() == index_after_ticks(old(sched).cur(), old(sched).runnable().len() as int, 1)
            &&& r == switch_between(old(sched).current(), final(sched).current())
        },
{
    proof {
        assert(index_after_ticks(old(sched).cur(), old(sched).runnable().len() as int, 0) == old(sched).cur());
    }
    sched.tick()
}

/// Registers thread `p` and makes it runnable, last in turn.
pub fn register_thread(sched: &mut Scheduler, p: Thread)
    requires
        old(sched).wf(),
        !ids_of(old(sched).threads@).contains(p.id),
        old(sched).threads@.len() < usize::MAX,
        old(sched).runnable().len() < usize::MAX,
    ensures
        final(sched).wf(),
        final(sched).threads@ == old(sched).threads@.push(with_state(p, ThreadState::Runnable)),
        final(sched).runnable() == old(sched).runnable().push(p.id),
        final(sched).cur() == old(sched).cur(),
{
    let ghost o = *old(sched);
    let t = Thread { id: p.id, process: p.process, state: ThreadState::Runnable, return_register: p.return_register };
    proof {
        assert(!o.runnable().contains(p.id)) by {
            if o.runnable().contains(p.id) {
                let k = choose|k: int| 0 <= k < o.runnable().len() && o.runnable()[k] == p.id;
                assert(ids_of(o.threads@).contains(o.runnable()[k]));
            }
        }
        lemma_insert_distinct(o.runnable(), o.runnable().len() as int, p.id);
        assert(o.runnable().insert(o.runnable().len() as int, p.id) =~= o.runnable().push(p.id));
        lemma_insert_distinct(ids_of(o.threads@), o.threads@.len() as int, p.id);
        assert(ids_of(o.threads@).insert(o.threads@.len() as int, p.id) =~= ids_of(o.threads@.push(t)));
    }
    sched.threads.push(t);
    sched.runnable_threads.push(p.id);
    proof {
        let th = sched.threads@;
        assert forall|i: int| 0 <= i < th.len() implies ((#[trigger] th[i]).state
            == ThreadState::Runnable <==> sched.runnable().contains(th[i].id)) by {
            if i < o.threads@.len() {
                assert(th[i] == o.threads@[i]);
                assert(ids_of(o.threads@)[i] == th[i].id);
            }
        }
        assert forall|k: int| 0 <= k < sched.runnable().len() implies ids_of(sched.threads@).contains(
            #[trigger] sched.runnable()[k],
        ) by {
            if k < o.runnable().len() {
                assert(ids_of(o.threads@).contains(o.runnable()[k]));
                let m = choose|m: int| 0 <= m < ids_of(o.threads@).len() && ids_of(o.threads@)[m] == o.runnable()[k];
                assert(ids_of(sched.threads@)[m] == o.runnable()[k]);
            } else {
                assert(ids_of(sched.threads@)[o.threads@.len() as int] == p.id);
            }
        }
    }
}

/// The running thread.
pub fn get_current_thread(sched: &Scheduler) -> (r: u64)
    requires
        sched.wf(),
        sched.runnable().len() > 0,
    ensures
        r == sched.current(),
{
    sched.get_current_thread()
}

/// The process of the running thread.
pub fn get_current_process(sched: &Scheduler) -> (r: u64)
    requires
        sched.wf(),
        sched.runnable().len() > 0,
    ensures
        r == process_of(sched.threads@, sched.current()),
{
    let c = sched.get_current_thread();
    proof {
        assert(sched.runnable().contains(c));
    }
    let i = sched.thread_index(c).unwrap();
    proof {
        lemma_process_of(sched.threads@, c, i as int);
    }
    sched.threads.get(i).process
}

/// Suspends thread `p`.
pub fn suspend_process(sched: &mut Scheduler, p: u64) -> (r: Option<Switch>)
    requires
        old(sched).wf(),
        old(sched).runnable().contains(p) ==> old(sched).runnable().len() > 1,
    ensures
        final(sched).wf(),
        suspend_post(*old(sched), *final(sched), p, r),
{
    sched.suspend(p)
}

/// Suspends the running thread; the turn passes on.
pub fn suspend_current_thread(sched: &mut Scheduler) -> (r: Option<Switch>)
    requires
        old(sched).wf(),
        old(sched).runnable().len() > 1,
    ensures
        final(sched).wf(),
        suspend_post(*old(sched), *final(sched), old(sched).current(), r),
        r == Some(Switch { from: old(sched).current(), to: final(sched).current() }),
        same_processes(old(sched).threads@, final(sched).threads@),
{
    let curr = sched.get_current_thread();
    proof {
        assert(old(sched).runnable().contains(curr));
    }
    let r = sched.suspend(curr);
    proof {
        lemma_suspend_keeps_processes(*old(sched), *sched, curr, r);
    }
    r
}

/// Whether `b` holds as many thread records as `a`, each of the same
/// process.
pub open spec fn same_processes(a: Seq<Thread>, b: Seq<Thread>) -> bool {
    &&& b.len() == a.len()
    &&& forall|j: int| 0 <= j < b.len() ==> (#[trigger] b[j]).process == a[j].process
}

/// Suspending a thread keeps every thread's process.
pub proof fn lemma_suspend_keeps_processes(o: Scheduler, f: Scheduler, id: u64, r: Option<Switch>)
    requires
        o.wf(),
        suspend_post(o, f, id, r),
    ensures
        same_processes(o.threads@, f.threads@),
{
    if o.runnable().contains(id) {
        let a = choose|a: int| 0 <= a < o.runnable().len() && o.runnable()[a] == id;
        assert(ids_of(o.threads@).contains(o.runnable()[a]));
        let j = choose|j: int| 0 <= j < ids_of(o.threads@).len() && ids_of(o.threads@)[j] == id;
        assert(has_thread(o.threads@, id, j));
        assert(f.threads@ == o.threads@.update(j, with_state(o.threads@[j], ThreadState::Suspended)));
    }
}

/// Wakes the suspended thread `p` with `tag` as the result of the call it
/// blocked in.
pub fn wake_thread(sched: &mut Scheduler, p: u64, tag: usize)
    requires
        old(sched).wf(),
        ids_of(old(sched).threads@).contains(p),
        !old(sched).runnable().contains(p),
        0 < old(sched).runnable().len() < usize::MAX,
    ensures
        final(sched).wf(),
        final(sched).runnable() == old(sched).runnable().insert(old(sched).cur() + 1, p),
        final(sched).cur() == old(sched).cur(),
        forall|j: int|
            has_thread(old(sched).threads@, p, j) ==> final(sched).threads@ == old(
                sched,
            ).threads@.update(
                j,
                Thread {
                    id: p,
                    process: old(sched).threads@[j].process,
                    state: ThreadState::Runnable,
                    return_register: tag,
                },
            ),
{
    sched.wake(p, tag)
}

/// Ends the running thread.
pub fn terminate_current_thread(sched: &mut Scheduler) -> (r: Option<Switch>)
    requires
        old(sched).wf(),
        old(sched).runnable().len() > 1,
    ensures
        final(sched).wf(),
        final(sched).runnable() == old(sched).runnable().remove(old(sched).cur()),
        final(sched).cur() == index_after_removal(
            old(sched).cur(),
            old(sched).cur(),
            old(sched).runnable().len() - 1,
        ),
        r == Some(Switch { from: old(sched).current(), to: final(sched).current() }),
        forall|j: int|
            has_thread(old(sched).threads@, old(sched).current(), j) ==> final(sched).threads@
                == old(sched).threads@.remove(j),
{
    sched.terminate_current_thread()
}

/// Makes thread `thread` the running one, to start the first user thread.
/// Loading its context and address space is left to the caller.
pub fn force_switch_to(sched: &mut Scheduler, thread: u64)
    requires
        old(sched).wf(),
        old(sched).runnable().contains(thread),
    ensures
        final(sched).wf(),
        final(sched).threads@ == old(sched).threads@,
        final(sched).runnable() == old(sched).runnable(),
        final(sched).current() == thread,
{
    let i = sched.runnable_position(thread).unwrap();
    sched.current_thread_index = i;
}

/// Ends the running thread's process: its other threads are suspended, then
/// the running thread ends. Some runnable thread of another process must be
/// left to take the turn.
pub fn terminate_current_process(sched: &mut Scheduler) -> (r: Option<Switch>)
    requires
        old(sched).wf(),
        old(sched).runnable().len() > 0,
        exists|k: int|
            0 <= k < old(sched).runnable().len() && #[trigger] process_of(
                old(sched).threads@,
                old(sched).runnable()[k],
            ) != process_of(old(sched).threads@, old(sched).current()),
    ensures
        final(sched).wf(),
        forall|x: u64|
            #[trigger] final(sched).runnable().contains(x) <==> (old(sched).runnable().contains(x)
                && process_of(old(sched).threads@, x) != process_of(
                old(sched).threads@,
                old(sched).current(),
            )),
        keeps_order(old(sched).runnable(), final(sched).runnable()),
        forall|x: u64|
            old(sched).runnable().contains(x) && x != old(sched).current() && process_of(
                old(sched).threads@,
                x,
            ) == process_of(old(sched).threads@, old(sched).current())
                ==> #[trigger] final(sched).is_suspended(x),
        forall|x: u64|
            x != old(sched).current() && !(old(sched).runnable().contains(x) && process_of(
                old(sched).threads@,
                x,
            ) == process_of(old(sched).threads@, old(sched).current()))
                ==> #[trigger] final(sched).is_suspended(x) == old(sched).is_suspended(x),
        !ids_of(final(sched).threads@).contains(old(sched).current()),
        r == Some(Switch { from: old(sched).current(), to: final(sched).current() }),
{
    let ghost o = *old(sched);
    let current_thread = sched.get_current_thread();
    let current_process = get_current_process(sched);
    let ghost w = choose|k: int|
        0 <= k < o.runnable().len() && #[trigger] process_of(o.threads@, o.runnable()[k])
            != process_of(o.threads@, o.current());
    let ghost wid = o.runnable()[w];
    let n = sched.threads.len();
    let mut i: usize = 0;
    proof {
        assert(o.runnable().contains(wid));
        assert(o.runnable().contains(current_thread));
        lemma_keeps_order_self(o.runnable());
    }
    while i < n
        invariant
            sched.wf(),
            n == sched.threads@.len(),
            n == o.threads@.len(),
            i <= n,
            forall|j: int|
                0 <= j < n ==> (#[trigger] sched.threads@[j]).id == o.threads@[j].id
                    && sched.threads@[j].process == o.threads@[j].process,
            sched.runnable().len() > 0,
            sched.current() == current_thread,
            current_thread == o.current(),
            current_process == process_of(o.threads@, current_thread),
            process_of(o.threads@, wid) != current_process,
            o.runnable().contains(wid),
            ids_of(o.threads@).no_duplicates(),
            forall|x: u64| #[trigger] sched.runnable().contains(x) ==> o.runnable().contains(x),
            forall|x: u64|
                o.runnable().contains(x) && process_of(o.threads@, x) != current_process
                    ==> #[trigger] sched.runnable().contains(x),
            forall|j: int|
                0 <= j < i && o.threads@[j].process == current_process && o.threads@[j].id
                    != current_thread ==> !sched.runnable().contains(#[trigger] o.threads@[j].id),
            keeps_order(o.runnable(), sched.runnable()),
            forall|x: u64|
                !(o.runnable().contains(x) && process_of(o.threads@, x) == current_process)
                    ==> #[trigger] sched.is_suspended(x) == o.is_suspended(x),
            forall|j: int|
                i <= j < n && o.runnable().contains(#[trigger] o.threads@[j].id) ==> sched.runnable().contains(
                    o.threads@[j].id,
                ),
            forall|j: int|
                0 <= j < i && o.threads@[j].process == current_process && o.threads@[j].id != current_thread
                    && o.runnable().contains(o.threads@[j].id) ==> sched.is_suspended(
                    #[trigger] o.threads@[j].id,
                ),
        decreases n - i,
    {
        let t = sched.threads.get(i);
        proof {
            assert(sched.threads@[i as int].id == o.threads@[i as int].id);
        }
        if t.process == current_process && t.id != current_thread {
            let ghost before = *sched;
            proof {
                assert(before.runnable().contains(current_thread));
                if before.runnable().contains(t.id) {
                    let a = choose|a: int| 0 <= a < before.runnable().len() && before.runnable()[a] == t.id;
                    assert(before.runnable()[before.cur()] == current_thread);
                    assert(a != before.cur());
                }
            }
            sched.suspend(t.id);
            proof {
                if before.runnable().contains(t.id) {
                    let a = choose|a: int| 0 <= a < before.runnable().len() && before.runnable()[a] == t.id;
                    lemma_remove_keeps_current(before.runnable(), before.cur(), a);
                    lemma_remove_distinct(before.runnable(), a);
                    let oi = ids_of(before.threads@);
                    assert(oi[i as int] == t.id);
                    assert(has_thread(before.threads@, t.id, i as int));
                    assert forall|j: int| 0 <= j < n implies (#[trigger] sched.threads@[j]).id
                        == o.threads@[j].id && sched.threads@[j].process == o.threads@[j].process by {
                        assert(before.threads@[j].id == o.threads@[j].id);
                    }
                    assert forall|x: u64|
                        o.runnable().contains(x) && process_of(o.threads@, x) != current_process
                            implies #[trigger] sched.runnable().contains(x) by {
                        assert(before.runnable().contains(x));
                        lemma_process_of(o.threads@, t.id, i as int);
                    }
                    lemma_keeps_order_remove(o.runnable(), before.runnable(), a);
                    let ns = with_state(before.threads@[i as int], ThreadState::Suspended);
                    assert(sched.threads@ == before.threads@.update(i as int, ns));
                    assert(has_thread(sched.threads@, t.id, i as int));
                    assert(sched.is_suspended(t.id));
                    lemma_process_of(o.threads@, t.id, i as int);
                    assert forall|x: u64|
                        !(o.runnable().contains(x) && process_of(o.threads@, x) == current_process)
                            implies #[trigger] sched.is_suspended(x) == o.is_suspended(x) by {
                        assert(sched.threads@[i as int].process == o.threads@[i as int].process);
                        assert(o.runnable().contains(t.id));
                        assert(x != t.id);
                        assert(ns.id != x && sched.threads@ == before.threads@.update(i as int, ns));
                        lemma_suspended_same(before, *sched, x, i as int);
                    }
                    assert forall|j: int|
                        0 <= j < i + 1 && o.threads@[j].process == current_process && o.threads@[j].id
                            != current_thread && o.runnable().contains(o.threads@[j].id) implies sched.is_suspended(
                        #[trigger] o.threads@[j].id,
                    ) by {
                        if j < i {
                            assert(ids_of(o.threads@)[j] != ids_of(o.threads@)[i as int]);
                            lemma_still_suspended(before, *sched, o.threads@[j].id, i as int);
                        }
                    }
                    assert forall|j: int|
                        i + 1 <= j < n && o.runnable().contains(#[trigger] o.threads@[j].id) implies sched.runnable().contains(
                        o.threads@[j].id,
                    ) by {
                        assert(ids_of(o.threads@)[j] != ids_of(o.threads@)[i as int]);
                    }
                } else {
                    assert(!o.runnable().contains(o.threads@[i as int].id));
                    assert(sched.threads@ == before.threads@);
                    assert forall|x: u64|
                        !(o.runnable().contains(x) && process_of(o.threads@, x) == current_process)
                            implies #[trigger] sched.is_suspended(x) == o.is_suspended(x) by {
                        assert(sched.is_suspended(x) == before.is_suspended(x));
                    }
                }
            }
        }
        i = i + 1;
    }
    proof {
        assert(sched.runnable().contains(wid));
        assert(wid != current_thread);
        let a = choose|a: int| 0 <= a < sched.runnable().len() && sched.runnable()[a] == wid;
        assert(sched.runnable()[sched.cur()] == current_thread);
    }
    let ghost before = *sched;
    let r = sched.terminate_current_thread();
    proof {
        lemma_remove_distinct(before.runnable(), before.cur());
        lemma_keeps_order_remove(o.runnable(), before.runnable(), before.cur());
        assert forall|x: u64|
            #[trigger] sched.runnable().contains(x) <==> (o.runnable().contains(x) && process_of(
                o.threads@,
                x,
            ) != current_process) by {
            if sched.runnable().contains(x) && process_of(o.threads@, x) == current_process {
                assert(before.runnable().contains(x));
                let k = choose|k: int| 0 <= k < o.runnable().len() && o.runnable()[k] == x;
                assert(ids_of(o.threads@).contains(o.runnable()[k]));
                let j = choose|j: int| 0 <= j < ids_of(o.threads@).len() && ids_of(o.threads@)[j] == x;
                assert(has_thread(o.threads@, x, j));
                lemma_process_of(o.threads@, x, j);
                assert(!before.runnable().contains(o.threads@[j].id));
            }
        }
        let bi = ids_of(before.threads@);
        assert(bi.contains(current_thread));
        let j = choose|j: int| 0 <= j < bi.len() && bi[j] == current_thread;
        assert(has_thread(before.threads@, current_thread, j));
        lemma_remove_distinct(bi, j);
        assert(sched.threads@ == before.threads@.remove(j));
        before.threads@.remove_ensures(j);
        bi.remove_ensures(j);
        assert(ids_of(sched.threads@) =~= bi.remove(j));
        assert forall|x: u64|
            o.runnable().contains(x) && x != o.current() && process_of(o.threads@, x) == process_of(
                o.threads@,
                o.current(),
            ) implies #[trigger] sched.is_suspended(x) by {
            let k = choose|k: int| 0 <= k < o.runnable().len() && o.runnable()[k] == x;
            assert(ids_of(o.threads@).contains(o.runnable()[k]));
            let jx = choose|jx: int| 0 <= jx < ids_of(o.threads@).len() && ids_of(o.threads@)[jx] == x;
            assert(has_thread(o.threads@, x, jx));
            lemma_process_of(o.threads@, x, jx);
            assert(o.threads@[jx].id == x);
            assert(before.is_suspended(x));
            lemma_still_suspended(before, *sched, x, j);
        }
        assert forall|x: u64|
            x != o.current() && !(o.runnable().contains(x) && process_of(o.threads@, x) == process_of(
                o.threads@,
                o.current(),
            )) implies #[trigger] sched.is_suspended(x) == o.is_suspended(x) by {
            lemma_suspended_same(before, *sched, x, j);
        }
    }
    r
}

} // verus!
