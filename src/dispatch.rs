//! The dispatcher: pending requests, the stack of running (and preempted)
//! tasks, and the priority-ceiling locks they hold. Each operation is one
//! event of the state machine; the platform layer performs the context
//! switches and interrupt masking that the returned values call for.
use vstd::prelude::*;
use crate::clock::Instant;
use crate::table::{TaskTable, Trigger};

verus! {

/// A request for one run of a task, with the value handed to it.
#[derive(Clone, Copy, Debug, PartialEq, Eq, Structural)]
pub struct Request {
    pub task: usize,
    pub payload: u32,
}

/// A critical section in progress: the resource, the position in the running
/// stack of the task that entered it, and the system ceiling before entry.
#[derive(Clone, Copy, Debug, PartialEq, Eq, Structural)]
pub struct Lock {
    pub resource: usize,
    pub frame: usize,
    pub saved: u8,
}

/// A deferred spawn: the task becomes pending once `delay` ticks have
/// elapsed from `start`.
#[derive(Clone, Copy, Debug, PartialEq, Eq, Structural)]
pub struct Timer {
    pub start: Instant,
    pub delay: u32,
    pub payload: u32,
}

#[derive(Clone, Copy, Debug, PartialEq, Eq, Structural)]
pub enum SpawnError {
    /// The task's single pending slot already holds an unconsumed request.
    QueueFull,
}

/// The abstract state of a dispatcher.
pub struct DispatcherView {
    /// Pending requests, in arrival order.
    pub queue: Seq<Request>,
    /// Tasks that have started and not returned, the innermost (executing) last.
    pub running: Seq<usize>,
    /// Critical sections entered and not left, the innermost last.
    pub locks: Seq<Lock>,
    /// The system ceiling: tasks at or below this priority are masked.
    pub ceiling: nat,
    /// For each task, its deferred spawn, if one is armed.
    pub timers: Seq<Option<Timer>>,
}

pub open spec fn is_pending(queue: Seq<Request>, t: usize) -> bool {
    exists|i: int| 0 <= i < queue.len() && queue[i].task == t
}

/// How many requests for task `t` the queue holds.
pub open spec fn pending_instances(queue: Seq<Request>, t: usize) -> nat
    decreases queue.len(),
{
    if queue.len() == 0 {
        0
    } else {
        pending_instances(queue.drop_last(), t) + if queue.last().task == t {
            1nat
        } else {
            0nat
        }
    }
}

/// Index `i` is the request the dispatcher selects next: one of the highest
/// priority, the earliest among equals.
pub open spec fn is_pick(table: TaskTable, queue: Seq<Request>, i: int) -> bool {
    &&& 0 <= i < queue.len()
    &&& forall|j: int| 0 <= j < queue.len() ==> table.prio(queue[j].task) <= table.prio(queue[i].task)
    &&& forall|j: int| 0 <= j < i ==> table.prio(queue[j].task) < table.prio(queue[i].task)
}

/// Priority of the executing task, 0 (the idle level) when none runs.
pub open spec fn running_prio(table: TaskTable, running: Seq<usize>) -> nat {
    if running.len() == 0 {
        0
    } else {
        table.prio(running.last())
    }
}

/// The system ceiling once the critical section `l` has been entered.
pub open spec fn level_after(table: TaskTable, l: Lock) -> nat {
    if l.saved as nat >= table.ceiling(l.resource) {
        l.saved as nat
    } else {
        table.ceiling(l.resource)
    }
}

/// Whether the task at stack position `frame` is inside a critical section on `r`.
pub open spec fn held_by(locks: Seq<Lock>, r: usize, frame: int) -> bool {
    exists|i: int| 0 <= i < locks.len() && locks[i].resource == r && locks[i].frame == frame
}

/// How many critical sections stay open once the task at `frame` has returned:
/// those it entered are the trailing ones.
pub open spec fn release_point(locks: Seq<Lock>, frame: int) -> nat
    decreases locks.len(),
{
    if locks.len() == 0 || locks.last().frame != frame {
        locks.len()
    } else {
        release_point(locks.drop_last(), frame)
    }
}

/// What stays open after releasing a frame's trailing locks has no trailing
/// lock of that frame.
proof fn lemma_release_point_take(locks: Seq<Lock>, frame: int)
    ensures
        release_point(locks, frame) <= locks.len(),
        release_point(locks.take(release_point(locks, frame) as int), frame)
            == release_point(locks, frame),
    decreases locks.len(),
{
    if locks.len() > 0 && locks.last().frame == frame {
        lemma_release_point_take(locks.drop_last(), frame);
        let k = release_point(locks, frame) as int;
        assert(locks.take(k) == locks.drop_last().take(k));
    } else {
        assert(locks.take(locks.len() as int) == locks);
    }
}

/// Once the executing task holds no lock, removing it from the running
/// stack keeps the state well formed.
proof fn lemma_pop_frame(table: TaskTable, v: DispatcherView)
    requires
        state_wf(table, v),
        v.running.len() > 0,
        release_point(v.locks, v.running.len() - 1) == v.locks.len(),
    ensures
        state_wf(table, DispatcherView { running: v.running.drop_last(), ..v }),
{
    let top = v.running.len() - 1;
    let ls = v.locks;
    let rn = v.running.drop_last();
    assert forall|i: int| 0 <= i < ls.len() implies ls[i].frame < top by {
        let l = ls.len() - 1;
        lemma_release_point_take(ls.drop_last(), top);
        assert(ls[l].frame != top);
        if i < l {
            assert(ls[i].frame <= ls[l].frame);
        }
    }
    assert forall|i: int| 0 <= i < ls.len() implies table.accesses(
        rn[ls[i].frame as int],
        ls[i].resource,
    ) by {
        assert(rn[ls[i].frame as int] == v.running[ls[i].frame as int]);
    }
}

/// The system ceiling once the locks past index `k` have been released.
pub open spec fn ceiling_at(v: DispatcherView, k: int) -> nat {
    if k < v.locks.len() {
        v.locks[k].saved as nat
    } else {
        v.ceiling
    }
}

pub open spec fn state_wf(table: TaskTable, v: DispatcherView) -> bool {
    let n = table.tasks_view().len();
    let nr = table.users_view().len();
    &&& table.wf()
    &&& v.timers.len() == n
    &&& forall|i: int| 0 <= i < v.queue.len() ==> v.queue[i].task < n
    &&& forall|i: int, j: int| 0 <= i < j < v.queue.len() ==> v.queue[i].task != v.queue[j].task
    &&& forall|i: int| 0 <= i < v.running.len() ==> v.running[i] < n
    &&& forall|i: int, j: int|
        0 <= i < j < v.running.len() ==> table.prio(v.running[i]) < table.prio(v.running[j])
    &&& forall|i: int|
        0 <= i < v.locks.len() ==> {
            &&& v.locks[i].resource < nr
            &&& v.locks[i].frame < v.running.len()
            &&& table.accesses(v.running[v.locks[i].frame as int], v.locks[i].resource)
        }
    &&& forall|i: int, j: int| 0 <= i < j < v.locks.len() ==> v.locks[i].frame <= v.locks[j].frame
    &&& forall|i: int, j: int|
        0 <= i < j < v.locks.len() ==> v.locks[i].resource != v.locks[j].resource
    &&& forall|i: int, k: int|
        0 <= i < v.locks.len() && v.locks[i].frame < k < v.running.len() ==> table.prio(
            v.running[k],
        ) > table.ceiling(v.locks[i].resource)
    &&& forall|i: int, j: int|
        0 <= i < j < v.locks.len() ==> table.ceiling(v.locks[i].resource) <= v.locks[j].saved
    &&& forall|i: int| 0 < i < v.locks.len() ==> v.locks[i].saved == level_after(table, v.locks[i - 1])
    &&& v.locks.len() == 0 ==> v.ceiling == 0
    &&& v.locks.len() > 0 ==> v.locks[0].saved == 0 && v.ceiling == level_after(table, v.locks.last())
}

/// Dropping one request keeps the queue's tasks valid and distinct.
proof fn lemma_remove_keeps_queue(table: TaskTable, q: Seq<Request>, i: int)
    requires
        0 <= i < q.len(),
        forall|a: int| 0 <= a < q.len() ==> q[a].task < table.tasks_view().len(),
        forall|a: int, b: int| 0 <= a < b < q.len() ==> q[a].task != q[b].task,
    ensures
        forall|a: int| 0 <= a < q.remove(i).len() ==> q.remove(i)[a].task < table.tasks_view().len(),
        forall|a: int, b: int|
            0 <= a < b < q.remove(i).len() ==> q.remove(i)[a].task != q.remove(i)[b].task,
{
    let r = q.remove(i);
    assert forall|a: int| 0 <= a < r.len() implies r[a] == if a < i {
        q[a]
    } else {
        q[a + 1]
    } by {}
}

/// The queue and timers after the due deferred spawns of tasks `0..k` have
/// been tried in id order: a due one whose task is not pending becomes its
/// request and is disarmed; one whose task is still pending stays armed.
pub open spec fn fire_timers(
    queue: Seq<Request>,
    timers: Seq<Option<Timer>>,
    now: Instant,
    k: int,
) -> (Seq<Request>, Seq<Option<Timer>>)
    decreases k,
{
    if k <= 0 {
        (queue, timers)
    } else {
        let (q, ts) = fire_timers(queue, timers, now, k - 1);
        let t = (k - 1) as usize;
        match ts[k - 1] {
            Some(tm) => if now.elapsed_spec(tm.start) >= tm.delay && !is_pending(q, t) {
                (q.push(Request { task: t, payload: tm.payload }), ts.update(k - 1, None))
            } else {
                (q, ts)
            },
            None => (q, ts),
        }
    }
}

/// The dispatcher can start a request now: the one it selects outranks both
/// the executing task and the system ceiling.
pub open spec fn can_start(table: TaskTable, v: DispatcherView) -> bool {
    exists|i: int|
        is_pick(table, v.queue, i) && table.prio(v.queue[i].task) > running_prio(table, v.running)
            && table.prio(v.queue[i].task) > v.ceiling
}

/// The system ceiling bounds the ceiling of every resource currently locked.
proof fn lemma_ceiling_covers_locks(table: TaskTable, v: DispatcherView)
    requires
        state_wf(table, v),
    ensures
        forall|i: int| 0 <= i < v.locks.len() ==> table.ceiling(v.locks[i].resource) <= v.ceiling,
        forall|i: int| 0 <= i < v.locks.len() ==> v.locks[i].saved <= v.ceiling,
{
    assert forall|i: int| 0 <= i < v.locks.len() implies table.ceiling(v.locks[i].resource)
        <= v.ceiling && v.locks[i].saved <= v.ceiling by {
        let last = v.locks.len() - 1;
        if i < last {
            assert(table.ceiling(v.locks[i].resource) <= v.locks[last].saved);
            if i > 0 {
                assert(v.locks[i].saved == level_after(table, v.locks[i - 1]));
                assert(table.ceiling(v.locks[i - 1].resource) <= v.locks[i].saved);
                assert(v.locks[i].saved <= level_after(table, v.locks[i]));
                assert(level_after(table, v.locks[i]) <= v.locks[last].saved) by {
                    if i + 1 < last {
                        assert(v.locks[i].saved <= v.locks[last].saved) by {
                            lemma_saved_monotone(table, v, i, last);
                        }
                    } else {
                        assert(v.locks[last].saved == level_after(table, v.locks[i]));
                    }
                }
            } else {
                lemma_saved_monotone(table, v, 0, last);
            }
        }
    }
}

/// The saved ceilings never decrease along the lock stack.
proof fn lemma_saved_monotone(table: TaskTable, v: DispatcherView, i: int, j: int)
    requires
        state_wf(table, v),
        0 <= i <= j < v.locks.len(),
    ensures
        v.locks[i].saved <= v.locks[j].saved,
        i < j ==> level_after(table, v.locks[i]) <= v.locks[j].saved,
    decreases j - i,
{
    if i < j {
        lemma_saved_monotone(table, v, i, j - 1);
        assert(v.locks[j].saved == level_after(table, v.locks[j - 1]));
    }
}

pub struct Dispatcher {
    table: TaskTable,
    queue: Vec<Request>,
    running: Vec<usize>,
    locks: Vec<Lock>,
    ceiling: u8,
    timers: Vec<Option<Timer>>,
}

impl View for Dispatcher {
    type V = DispatcherView;

    closed spec fn view(&self) -> DispatcherView {
        DispatcherView {
            queue: self.queue@,
            running: self.running@,
            locks: self.locks@,
            ceiling: self.ceiling as nat,
            timers: self.timers@,
        }
    }
}

impl Dispatcher {
    pub closed spec fn table(&self) -> TaskTable {
        self.table
    }

    pub open spec fn wf(&self) -> bool {
        state_wf(self.table(), self@)
    }

    pub open spec fn num_tasks_spec(&self) -> nat {
        self.table().tasks_view().len()
    }

    /// A dispatcher over `table` with nothing pending and nothing running.
    pub fn new(table: TaskTable) -> (d: Dispatcher)
        requires
            table.wf(),
        ensures
            d.wf(),
            d.table() == table,
            d@.queue.len() == 0,
            d@.running.len() == 0,
            d@.locks.len() == 0,
            d@.ceiling == 0,
            d@.timers.len() == table.tasks_view().len(),
            forall|t: int| 0 <= t < d@.timers.len() ==> d@.timers[t] is None,
    {
        let n = table.num_tasks();
        let mut timers: Vec<Option<Timer>> = Vec::new();
        let mut i: usize = 0;
        while i < n
            invariant
                0 <= i <= n,
                timers@.len() == i,
                forall|t: int| 0 <= t < i ==> timers@[t] is None,
            decreases n - i,
        {
            timers.push(None);
            i = i + 1;
        }
        Dispatcher {
            table,
            queue: Vec::new(),
            running: Vec::new(),
            locks: Vec::new(),
            ceiling: 0,
            timers,
        }
    }

    pub fn table_ref(&self) -> (t: &TaskTable)
        ensures
            *t == self.table(),
    {
        &self.table
    }

    /// Position in the queue of the request for task `t`, if one is pending.
    fn find_pending(&self, t: usize) -> (r: Option<usize>)
        ensures
            r is None <==> !is_pending(self@.queue, t),
            r is Some ==> r->Some_0 < self@.queue.len() && self@.queue[r->Some_0 as int].task == t,
    {
        let mut i: usize = 0;
        while i < self.queue.len()
            invariant
                0 <= i <= self@.queue.len(),
                forall|j: int| 0 <= j < i ==> self@.queue[j].task != t,
            decreases self@.queue.len() - i,
        {
            if self.queue[i].task == t {
                return Some(i);
            }
            i = i + 1;
        }
        None
    }

    /// Whether task `t` has a pending request.
    pub fn is_pending(&self, t: usize) -> (r: bool)
        ensures
            r == is_pending(self@.queue, t),
    {
        self.find_pending(t).is_some()
    }

    /// Makes task `t` pending with `payload`, unless its single slot is taken.
    pub fn spawn(&mut self, t: usize, payload: u32) -> (r: Result<(), SpawnError>)
        requires
            old(self).wf(),
            t < old(self).num_tasks_spec(),
        ensures
            final(self).wf(),
            final(self).table() == old(self).table(),
            is_pending(old(self)@.queue, t) ==> r == Err::<(), SpawnError>(SpawnError::QueueFull)
                && final(self)@ == old(self)@,
            !is_pending(old(self)@.queue, t) ==> r == Ok::<(), SpawnError>(()) && final(self)@
                == (DispatcherView {
                queue: old(self)@.queue.push(Request { task: t, payload }),
                ..old(self)@
            }),
    {
        if self.find_pending(t).is_some() {
            return Err(SpawnError::QueueFull);
        }
        self.queue.push(Request { task: t, payload });
        Ok(())
    }

    /// Withdraws the pending request of task `t`, handing back its payload.
    pub fn cancel(&mut self, t: usize) -> (r: Option<u32>)
        requires
            old(self).wf(),
        ensures
            final(self).wf(),
            final(self).table() == old(self).table(),
            !is_pending(old(self)@.queue, t) ==> r is None && final(self)@ == old(self)@,
            is_pending(old(self)@.queue, t) ==> exists|i: int|
                0 <= i < old(self)@.queue.len() && old(self)@.queue[i].task == t && r == Some(
                    old(self)@.queue[i].payload,
                ) && final(self)@ == (DispatcherView {
                    queue: old(self)@.queue.remove(i),
                    ..old(self)@
                }),
    {
        match self.find_pending(t) {
            None => None,
            Some(i) => {
                let ghost q = self@.queue;
                let req = self.queue.remove(i);
                proof {
                    lemma_remove_keeps_queue(self.table, q, i as int);
                    assert(self@.running == old(self)@.running);
                }
                Some(req.payload)
            },
        }
    }

    /// Whether the idle task is the one to run: nothing pending, nothing running.
    pub fn is_idle(&self) -> (r: bool)
        ensures
            r == (self@.queue.len() == 0 && self@.running.len() == 0),
    {
        self.queue.len() == 0 && self.running.len() == 0
    }

    /// The executing task, if any.
    pub fn running_task(&self) -> (r: Option<usize>)
        ensures
            self@.running.len() == 0 ==> r is None,
            self@.running.len() > 0 ==> r == Some(self@.running.last()),
    {
        if self.running.len() == 0 {
            None
        } else {
            Some(self.running[self.running.len() - 1])
        }
    }

    pub fn system_ceiling(&self) -> (r: u8)
        ensures
            r as nat == self@.ceiling,
    {
        self.ceiling
    }

    /// Number of pending requests.
    pub fn pending_len(&self) -> (r: usize)
        ensures
            r == self@.queue.len(),
    {
        self.queue.len()
    }


    /// Arms a deferred spawn of task `t`: it becomes pending once `delay`
    /// ticks have elapsed from `now`. Fails if one is already armed.
    pub fn spawn_after(&mut self, t: usize, payload: u32, now: Instant, delay: u32) -> (r: Result<
        (),
        SpawnError,
    >)
        requires
            old(self).wf(),
            t < old(self).num_tasks_spec(),
        ensures
            final(self).wf(),
            final(self).table() == old(self).table(),
            old(self)@.timers[t as int] is Some ==> r == Err::<(), SpawnError>(
                SpawnError::QueueFull,
            ) && final(self)@ == old(self)@,
            old(self)@.timers[t as int] is None ==> r == Ok::<(), SpawnError>(()) && final(self)@
                == (DispatcherView {
                timers: old(self)@.timers.update(t as int, Some(Timer { start: now, delay, payload })),
                ..old(self)@
            }),
    {
        if self.timers[t].is_some() {
            return Err(SpawnError::QueueFull);
        }
        self.timers.set(t, Some(Timer { start: now, delay, payload }));
        Ok(())
    }

    /// Clock tick: every armed deferred spawn that is due at `now` becomes a
    /// pending request, tasks taken in id order.
    pub fn poll_timers(&mut self, now: Instant)
        requires
            old(self).wf(),
        ensures
            final(self).wf(),
            final(self).table() == old(self).table(),
            (final(self)@.queue, final(self)@.timers) == fire_timers(
                old(self)@.queue,
                old(self)@.timers,
                now,
                old(self)@.timers.len() as int,
            ),
            final(self)@.running == old(self)@.running,
            final(self)@.locks == old(self)@.locks,
            final(self)@.ceiling == old(self)@.ceiling,
    {
        let n = self.timers.len();
        let mut i: usize = 0;
        while i < n
            invariant
                self.wf(),
                self.table == old(self).table,
                n == old(self)@.timers.len(),
                n == self.table().tasks_view().len(),
                0 <= i <= n,
                (self@.queue, self@.timers) == fire_timers(
                    old(self)@.queue,
                    old(self)@.timers,
                    now,
                    i as int,
                ),
                self@.running == old(self)@.running,
                self@.locks == old(self)@.locks,
                self@.ceiling == old(self)@.ceiling,
            decreases n - i,
        {
            if let Some(tm) = self.timers[i] {
                if now.reached(tm.start, tm.delay) {
                    if self.spawn(i, tm.payload).is_ok() {
                        self.timers.set(i, None);
                    }
                }
            }
            i = i + 1;
        }
    }

    /// Starts the request the dispatcher selects, when it outranks both the
    /// executing task and the system ceiling; otherwise changes nothing.
    pub fn dispatch(&mut self) -> (r: Option<Request>)
        requires
            old(self).wf(),
        ensures
            final(self).wf(),
            final(self).table() == old(self).table(),
            r is None <==> !can_start(old(self).table(), old(self)@),
            r is None ==> final(self)@ == old(self)@,
            r is Some ==> exists|i: int|
                is_pick(old(self).table(), old(self)@.queue, i) && r == Some(old(self)@.queue[i])
                    && final(self)@ == (DispatcherView {
                    queue: old(self)@.queue.remove(i),
                    running: old(self)@.running.push(old(self)@.queue[i].task),
                    ..old(self)@
                }),
    {
        let ghost table = self.table;
        let ghost v = self@;
        let n = self.queue.len();
        if n == 0 {
            return None;
        }
        assert(self@.queue[0].task < table.tasks_view().len());
        let mut best: usize = 0;
        let mut bp: u8 = self.table.priority(self.queue[0].task);
        let mut j: usize = 1;
        while j < n
            invariant
                self.wf(),
                self.table == table,
                self@ == v,
                n == v.queue.len(),
                0 <= best < j <= n,
                bp as nat == table.prio(v.queue[best as int].task),
                forall|k: int| 0 <= k < j ==> table.prio(v.queue[k].task) <= bp,
                forall|k: int| 0 <= k < best ==> table.prio(v.queue[k].task) < bp,
            decreases n - j,
        {
            assert(self.queue@[j as int].task < table.tasks_view().len());
            let p = self.table.priority(self.queue[j].task);
            if p > bp {
                best = j;
                bp = p;
            }
            j = j + 1;
        }
        assert(is_pick(table, v.queue, best as int));
        let cur: u8 = if self.running.len() == 0 {
            0
        } else {
            assert(self@.running[self@.running.len() - 1] < table.tasks_view().len());
            self.table.priority(self.running[self.running.len() - 1])
        };
        if bp > cur && bp > self.ceiling {
            let req = self.queue.remove(best);
            self.running.push(req.task);
            proof {
                lemma_remove_keeps_queue(table, v.queue, best as int);
                lemma_ceiling_covers_locks(table, v);
                let rn = self@.running;
                assert forall|a: int, b: int| 0 <= a < b < rn.len() implies table.prio(rn[a])
                    < table.prio(rn[b]) by {
                    if b == rn.len() - 1 && a < v.running.len() - 1 {
                        assert(table.prio(v.running[a]) < table.prio(v.running.last()));
                    }
                }
                assert forall|i: int, k: int|
                    0 <= i < v.locks.len() && v.locks[i].frame < k < rn.len() implies table.prio(
                        rn[k],
                    ) > table.ceiling(v.locks[i].resource) by {
                    if k < v.running.len() {
                        assert(rn[k] == v.running[k]);
                    }
                }
                assert forall|i: int| 0 <= i < v.locks.len() implies table.accesses(
                    rn[v.locks[i].frame as int],
                    v.locks[i].resource,
                ) by {
                    assert(rn[v.locks[i].frame as int] == v.running[v.locks[i].frame as int]);
                }
            }
            Some(req)
        } else {
            None
        }
    }

    /// Enters the critical section on `resource` for the executing task: the
    /// system ceiling rises to the resource's ceiling if it is lower.
    pub fn lock(&mut self, resource: usize)
        requires
            old(self).wf(),
            old(self)@.running.len() > 0,
            old(self).table().accesses(old(self)@.running.last(), resource),
            !held_by(old(self)@.locks, resource, old(self)@.running.len() - 1),
        ensures
            final(self).wf(),
            final(self).table() == old(self).table(),
            final(self)@ == (DispatcherView {
                locks: old(self)@.locks.push(
                    Lock {
                        resource,
                        frame: (old(self)@.running.len() - 1) as usize,
                        saved: old(self)@.ceiling as u8,
                    },
                ),
                ceiling: level_after(
                    old(self).table(),
                    Lock {
                        resource,
                        frame: (old(self)@.running.len() - 1) as usize,
                        saved: old(self)@.ceiling as u8,
                    },
                ),
                ..old(self)@
            }),
    {
        let ghost table = self.table;
        let ghost v = self@;
        let top = self.running.len() - 1;
        let c = self.table.ceiling_value(resource);
        self.locks.push(Lock { resource, frame: top, saved: self.ceiling });
        if c > self.ceiling {
            self.ceiling = c;
        }
        proof {
            lemma_ceiling_covers_locks(table, v);
            table.lemma_accessor_below_ceiling(v.running[top as int], resource);
            assert forall|i: int| 0 <= i < v.locks.len() implies v.locks[i].resource != resource by {
                if v.locks[i].frame < top {
                    assert(table.prio(v.running[top as int]) > table.ceiling(v.locks[i].resource));
                } else {
                    assert(!held_by(v.locks, resource, top as int));
                }
            }
            if v.locks.len() > 0 {
                assert(v.ceiling == level_after(table, v.locks.last()));
            }
        }
    }

    /// Leaves the innermost critical section of the executing task and
    /// restores the system ceiling saved on entry; returns its resource.
    pub fn unlock(&mut self) -> (r: usize)
        requires
            old(self).wf(),
            old(self)@.locks.len() > 0,
            old(self)@.locks.last().frame == old(self)@.running.len() - 1,
        ensures
            final(self).wf(),
            final(self).table() == old(self).table(),
            r == old(self)@.locks.last().resource,
            final(self)@ == (DispatcherView {
                locks: old(self)@.locks.drop_last(),
                ceiling: old(self)@.locks.last().saved as nat,
                ..old(self)@
            }),
    {
        let ghost v = self@;
        let l = self.locks.pop().unwrap();
        self.ceiling = l.saved;
        proof {
            assert(self@.locks == v.locks.drop_last());
            if v.locks.len() > 1 {
                assert(v.locks.last().saved == level_after(self.table, v.locks[v.locks.len() - 2]));
            }
        }
        l.resource
    }

    /// Leaves every critical section that the executing task still holds,
    /// innermost first.
    fn release_top_locks(&mut self)
        requires
            old(self).wf(),
            old(self)@.running.len() > 0,
        ensures
            final(self).wf(),
            final(self).table() == old(self).table(),
            final(self)@ == (DispatcherView {
                locks: old(self)@.locks.take(
                    release_point(old(self)@.locks, old(self)@.running.len() - 1) as int,
                ),
                ceiling: ceiling_at(
                    old(self)@,
                    release_point(old(self)@.locks, old(self)@.running.len() - 1) as int,
                ),
                ..old(self)@
            }),
    {
        let ghost v = self@;
        let top = self.running.len() - 1;
        while self.locks.len() > 0 && self.locks[self.locks.len() - 1].frame == top
            invariant
                self.wf(),
                self.table == old(self).table,
                self@.queue == v.queue,
                self@.running == v.running,
                self@.timers == v.timers,
                top == v.running.len() - 1,
                self@.locks.len() <= v.locks.len(),
                self@.locks == v.locks.take(self@.locks.len() as int),
                release_point(v.locks, top as int) == release_point(self@.locks, top as int),
                self@.ceiling == ceiling_at(v, self@.locks.len() as int),
            decreases self@.locks.len(),
        {
            let ghost before = self@.locks;
            self.unlock();
            proof {
                assert(before.drop_last() == v.locks.take(before.len() - 1));
            }
        }
        proof {
            assert(release_point(self@.locks, top as int) == self@.locks.len());
        }
    }

    /// The executing task returns: the critical sections it left open are
    /// released, innermost first, and the task it preempted resumes.
    pub fn complete(&mut self) -> (r: usize)
        requires
            old(self).wf(),
            old(self)@.running.len() > 0,
        ensures
            final(self).wf(),
            final(self).table() == old(self).table(),
            r == old(self)@.running.last(),
            final(self)@ == (DispatcherView {
                queue: old(self)@.queue,
                running: old(self)@.running.drop_last(),
                locks: old(self)@.locks.take(
                    release_point(old(self)@.locks, old(self)@.running.len() - 1) as int,
                ),
                ceiling: ceiling_at(
                    old(self)@,
                    release_point(old(self)@.locks, old(self)@.running.len() - 1) as int,
                ),
                timers: old(self)@.timers,
            }),
    {
        let ghost v = self@;
        let top = self.running.len() - 1;
        self.release_top_locks();
        let ghost mid = self@;
        let t = self.running.pop().unwrap();
        proof {
            lemma_release_point_take(v.locks, top as int);
            lemma_pop_frame(self.table, mid);
            assert(self@ == (DispatcherView { running: mid.running.drop_last(), ..mid }));
        }
        t
    }

    /// A hardware interrupt fires on `vector`: the task bound to it becomes
    /// pending (a request already pending absorbs it). Returns that task.
    pub fn interrupt(&mut self, vector: u16) -> (r: Option<usize>)
        requires
            old(self).wf(),
        ensures
            final(self).wf(),
            final(self).table() == old(self).table(),
            r is None <==> !(exists|t: int|
                0 <= t < old(self).num_tasks_spec() && old(self).table().tasks_view()[t].trigger
                    == Trigger::Interrupt(vector)),
            r is None ==> final(self)@ == old(self)@,
            r is Some ==> {
                let t = r->Some_0;
                &&& t < old(self).num_tasks_spec()
                &&& old(self).table().tasks_view()[t as int].trigger == Trigger::Interrupt(vector)
                &&& is_pending(old(self)@.queue, t) ==> final(self)@ == old(self)@
                &&& !is_pending(old(self)@.queue, t) ==> final(self)@ == (DispatcherView {
                    queue: old(self)@.queue.push(Request { task: t, payload: 0 }),
                    ..old(self)@
                })
            },
    {
        let n = self.table.num_tasks();
        let mut t: usize = 0;
        while t < n
            invariant
                self.wf(),
                self.table == old(self).table,
                self@ == old(self)@,
                n == self.table().tasks_view().len(),
                forall|k: int| 0 <= k < t ==> self.table().tasks_view()[k].trigger
                    != Trigger::Interrupt(vector),
            decreases n - t,
        {
            if self.table.trigger(t) == Trigger::Interrupt(vector) {
                let _ = self.spawn(t, 0);
                return Some(t);
            }
            t = t + 1;
        }
        None
    }

}

/// A queue without a request for `t` counts none.
proof fn lemma_no_instances(queue: Seq<Request>, t: usize)
    requires
        !is_pending(queue, t),
    ensures
        pending_instances(queue, t) == 0,
    decreases queue.len(),
{
    if queue.len() > 0 {
        let rest = queue.drop_last();
        assert(!is_pending(rest, t)) by {
            if is_pending(rest, t) {
                let i = choose|i: int| 0 <= i < rest.len() && rest[i].task == t;
                assert(queue[i] == rest[i]);
            }
        }
        assert(queue[queue.len() - 1].task != t);
        lemma_no_instances(rest, t);
    }
}

/// A non-empty queue always has a request to select.
proof fn lemma_pick_exists(table: TaskTable, queue: Seq<Request>) -> (i: int)
    requires
        queue.len() > 0,
    ensures
        is_pick(table, queue, i),
    decreases queue.len(),
{
    if queue.len() == 1 {
        0
    } else {
        let rest = queue.drop_last();
        let i0 = lemma_pick_exists(table, rest);
        let last = queue.len() - 1;
        assert forall|j: int| 0 <= j < last implies queue[j] == rest[j] by {}
        if table.prio(queue[last].task) > table.prio(queue[i0].task) {
            last
        } else {
            i0
        }
    }
}

/// Strict priority order: while tasks `a` and `b` are both pending and `a`
/// has the higher priority, the request the dispatcher selects is never
/// `b`'s, so `b` cannot start before `a`.
pub proof fn lemma_higher_priority_first(d: Dispatcher, a: usize, b: usize, i: int)
    requires
        d.wf(),
        is_pending(d@.queue, a),
        is_pending(d@.queue, b),
        d.table().prio(a) > d.table().prio(b),
        is_pick(d.table(), d@.queue, i),
    ensures
        d@.queue[i].task != b,
        d.table().prio(d@.queue[i].task) >= d.table().prio(a),
{
    let ia = choose|k: int| 0 <= k < d@.queue.len() && d@.queue[k].task == a;
    assert(d.table().prio(d@.queue[ia].task) <= d.table().prio(d@.queue[i].task));
}

/// FIFO among equals: of two pending requests of equal priority, the later
/// one is never selected while the earlier one waits.
pub proof fn lemma_equal_priority_fifo(d: Dispatcher, x: int, y: int, i: int)
    requires
        d.wf(),
        0 <= x < y < d@.queue.len(),
        d.table().prio(d@.queue[x].task) == d.table().prio(d@.queue[y].task),
        is_pick(d.table(), d@.queue, i),
    ensures
        i != y,
{
}

/// Mutual exclusion: no two critical sections open at one instant are on
/// the same resource, so at most one task is inside each.
pub proof fn lemma_exclusive_access(d: Dispatcher, i: int, j: int)
    requires
        d.wf(),
        0 <= i < j < d@.locks.len(),
    ensures
        d@.locks[i].resource != d@.locks[j].resource,
{
}

/// While a task is inside a critical section, any task that runs above it
/// (has preempted it) is one that never accesses that resource.
pub proof fn lemma_no_racer_runs(d: Dispatcher, i: int, k: int)
    requires
        d.wf(),
        0 <= i < d@.locks.len(),
        d@.locks[i].frame < k < d@.running.len(),
    ensures
        !d.table().accesses(d@.running[k], d@.locks[i].resource),
{
    if d.table().accesses(d@.running[k], d@.locks[i].resource) {
        d.table().lemma_accessor_below_ceiling(d@.running[k], d@.locks[i].resource);
    }
}

/// Ceilings override plain priority: a request that the dispatcher can start
/// now belongs to a task that accesses none of the resources currently locked.
pub proof fn lemma_started_task_never_races(d: Dispatcher, i: int, l: int)
    requires
        d.wf(),
        is_pick(d.table(), d@.queue, i),
        d.table().prio(d@.queue[i].task) > d@.ceiling,
        0 <= l < d@.locks.len(),
    ensures
        !d.table().accesses(d@.queue[i].task, d@.locks[l].resource),
{
    lemma_ceiling_covers_locks(d.table(), d@);
    if d.table().accesses(d@.queue[i].task, d@.locks[l].resource) {
        d.table().lemma_accessor_below_ceiling(d@.queue[i].task, d@.locks[l].resource);
    }
}

/// Single-slot spawning: spawning `t` when it is not pending leaves exactly
/// one request for it, and that request makes a second spawn find it pending.
pub proof fn lemma_spawn_twice(d: Dispatcher, t: usize, payload: u32)
    requires
        d.wf(),
        !is_pending(d@.queue, t),
    ensures
        is_pending(d@.queue.push(Request { task: t, payload }), t),
        pending_instances(d@.queue.push(Request { task: t, payload }), t) == 1,
{
    let q1 = d@.queue.push(Request { task: t, payload });
    assert(q1[q1.len() - 1].task == t);
    assert(q1.drop_last() == d@.queue);
    lemma_no_instances(d@.queue, t);
}

/// In every well-formed state each task has at most one pending request.
pub proof fn lemma_single_slot(d: Dispatcher, t: usize)
    requires
        d.wf(),
    ensures
        pending_instances(d@.queue, t) <= 1,
{
    let q = d@.queue;
    if q.len() > 0 {
        let rest = q.drop_last();
        if q.last().task == t {
            assert(!is_pending(rest, t)) by {
                if is_pending(rest, t) {
                    let i = choose|i: int| 0 <= i < rest.len() && rest[i].task == t;
                    assert(q[i].task != q[q.len() - 1].task);
                }
            }
            lemma_no_instances(rest, t);
        } else if is_pending(rest, t) {
            let i = choose|i: int| 0 <= i < rest.len() && rest[i].task == t;
            let rest2 = rest.remove(i);
            assert(!is_pending(rest.remove(i), t)) by {
                if is_pending(rest2, t) {
                    let j = choose|j: int| 0 <= j < rest2.len() && rest2[j].task == t;
                    if j < i {
                        assert(q[j].task != q[i].task);
                    } else {
                        assert(rest2[j] == q[j + 1]);
                        assert(q[i].task != q[j + 1].task);
                    }
                }
            }
            lemma_instances_remove(rest, i, t);
            lemma_no_instances(rest2, t);
        } else {
            lemma_no_instances(rest, t);
        }
    }
}

/// Removing one request for `t` removes one from its count.
proof fn lemma_instances_remove(q: Seq<Request>, i: int, t: usize)
    requires
        0 <= i < q.len(),
        q[i].task == t,
    ensures
        pending_instances(q, t) == pending_instances(q.remove(i), t) + 1,
    decreases q.len(),
{
    let r = q.remove(i);
    if i == q.len() - 1 {
        assert(r == q.drop_last());
    } else {
        assert(r.drop_last() == q.drop_last().remove(i));
        assert(r.last() == q.last());
        lemma_instances_remove(q.drop_last(), i, t);
    }
}

/// Leaving idle: with nothing running, any pending request can start at the
/// next dispatch, since no critical section can be open.
pub proof fn lemma_idle_wakes(d: Dispatcher)
    requires
        d.wf(),
        d@.running.len() == 0,
        d@.queue.len() > 0,
    ensures
        can_start(d.table(), d@),
{
    let i = lemma_pick_exists(d.table(), d@.queue);
    assert(d@.locks.len() == 0) by {
        if d@.locks.len() > 0 {
            assert(d@.locks[0].frame < d@.running.len());
        }
    }
    assert(d.table().prio(d@.queue[i].task) >= 1);
}

} // verus!
