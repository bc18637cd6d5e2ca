//! The kernel as a mathematical state machine: `KernelView::stepped` is one tick.
use vstd::prelude::*;
use crate::kernel::{Config, Event, ReadyEntry};
use crate::kernel::mutex::MutexView;
use crate::kernel::queue::QueueView;
use crate::kernel::semaphore::SemaphoreView;
use crate::kernel::select::ranks_of;
use crate::kernel::task::{BlockReason, Op, TaskState, TaskView};
use crate::mcu::{Irq, McuView};
use crate::mcu::gpio::{pin_level, pins_after_set, pins_after_toggle};


verus! {

/// A scheduling record: the tick, the task that ran, and the ready set seen.
pub struct TickRecordView {
    pub tick: u64,
    pub ran: Option<usize>,
    pub ready: Seq<ReadyEntry>,
}

/// The whole state of a kernel.
pub struct KernelView {
    pub mcu: McuView,
    pub tasks: Seq<TaskView>,
    pub mutexes: Seq<MutexView>,
    pub semaphores: Seq<SemaphoreView>,
    pub queues: Seq<QueueView>,
    pub log: Seq<Event>,
    pub records: Seq<TickRecordView>,
    pub rng: u64,
    pub config: Config,
    pub now: u64,
    pub running: Option<usize>,
    pub idle_ticks: u64,
    pub invariant_violations: u64,
}

// ----- tasks -----

/// The predicate "differs from `x`".
pub open spec fn differs_from(x: usize) -> spec_fn(usize) -> bool {
    |y: usize| y != x
}

/// `s` without any occurrence of `x`.
pub open spec fn without_value(s: Seq<usize>, x: usize) -> Seq<usize> {
    s.filter(differs_from(x))
}

/// Ready or running: a candidate for the CPU.
pub open spec fn is_ready(t: TaskView) -> bool {
    t.state == TaskState::Ready || t.state == TaskState::Running
}

/// The sum of the deadline misses of the first `n` tasks.
pub open spec fn total_misses(ts: Seq<TaskView>, n: int) -> nat
    decreases n,
{
    if n <= 0 {
        0
    } else {
        (total_misses(ts, n - 1) + ts[n - 1].deadlines_missed) as nat
    }
}

pub proof fn lemma_total_misses_mono(ts: Seq<TaskView>, i: int, n: int)
    requires
        0 <= i <= n,
    ensures
        total_misses(ts, i) <= total_misses(ts, n),
    decreases n - i,
{
    if i < n {
        lemma_total_misses_mono(ts, i, n - 1);
    }
}

impl TaskView {
    /// The task with its program counter moved past the current operation.
    pub open spec fn advanced(self) -> TaskView {
        TaskView { pc: (self.pc + 1) as usize, ..self }
    }

    /// The task parked for `reason`.
    pub open spec fn parked(self, reason: BlockReason) -> TaskView {
        TaskView { state: TaskState::Blocked, blocked_on: Some(reason), ..self }
    }

    /// The task made ready again after a wakeup.
    pub open spec fn woken_up(self) -> TaskView {
        TaskView { state: TaskState::Ready, blocked_on: None, ..self }
    }

    /// The task with its effective priority set to `p`.
    pub open spec fn with_eff(self, p: u8) -> TaskView {
        TaskView { eff_priority: p, ..self }
    }

    /// The task after its job completes: a periodic task waits for its next period,
    /// a one-shot task is suspended for good.
    pub open spec fn finished(self) -> TaskView {
        TaskView {
            jobs_completed: (self.jobs_completed + 1) as u64,
            job_active: false,
            pc: 0,
            compute_remaining: 0,
            state: if self.period is Some {
                TaskState::Blocked
            } else {
                TaskState::Suspended
            },
            blocked_on: if self.period is Some {
                Some(BlockReason::WaitPeriod)
            } else {
                self.blocked_on
            },
            next_release: if self.period is Some {
                self.next_release
            } else {
                u64::MAX
            },
            ..self
        }
    }

    /// The operation at the program counter, if any.
    pub open spec fn current_op(self) -> Option<Op> {
        if self.pc < self.program.len() {
            Some(self.program[self.pc as int])
        } else {
            None
        }
    }
}

// ----- the tick ISR -----

/// A job of `t` is due for release at `now`.
pub open spec fn is_due(t: TaskView, now: u64) -> bool {
    !t.job_active && t.next_release != u64::MAX && now >= t.next_release
}

/// `t` after the release check at `now`.
pub open spec fn released(t: TaskView, now: u64) -> TaskView {
    if is_due(t, now) {
        TaskView {
            state: TaskState::Ready,
            job_active: true,
            jobs_released: (t.jobs_released + 1) as u64,
            pc: 0,
            compute_remaining: 0,
            blocked_on: None,
            missed_current: false,
            deadline: match t.period {
                Some(p) => (now + p) as u64,
                None => u64::MAX,
            },
            next_release: match t.period {
                Some(p) => (t.next_release + p) as u64,
                None => u64::MAX,
            },
            ..t
        }
    } else {
        t
    }
}

/// A sleeping task whose wake time has come.
pub open spec fn wakes(t: TaskView, now: u64) -> bool {
    t.state == TaskState::Blocked && t.blocked_on == Some(BlockReason::Sleep) && now >= t.wake_at
}

/// `t` after the sleep check at `now`.
pub open spec fn slept(t: TaskView, now: u64) -> TaskView {
    if wakes(t, now) {
        t.woken_up()
    } else {
        t
    }
}

/// An active job that has reached its deadline unfinished and is not yet flagged: a job
/// released at tick r with period p owns ticks r to r + p - 1 and is flagged at r + p.
pub open spec fn misses(t: TaskView, now: u64) -> bool {
    t.job_active && !t.missed_current && t.deadline != u64::MAX && now >= t.deadline
}

/// `t` after the deadline check at `now`.
pub open spec fn deadline_checked(t: TaskView, now: u64) -> TaskView {
    if misses(t, now) {
        TaskView {
            deadlines_missed: (t.deadlines_missed + 1) as u64,
            missed_current: true,
            ..t
        }
    } else {
        t
    }
}

/// The release events for the first `n` tasks.
pub open spec fn release_events(ts: Seq<TaskView>, now: u64, n: int) -> Seq<Event>
    decreases n,
{
    if n <= 0 {
        Seq::empty()
    } else if is_due(ts[n - 1], now) {
        release_events(ts, now, n - 1).push(Event::Release { task: (n - 1) as usize })
    } else {
        release_events(ts, now, n - 1)
    }
}

/// The deadline-miss events for the first `n` tasks.
pub open spec fn miss_events(ts: Seq<TaskView>, now: u64, n: int) -> Seq<Event>
    decreases n,
{
    if n <= 0 {
        Seq::empty()
    } else if misses(ts[n - 1], now) {
        miss_events(ts, now, n - 1).push(
            Event::DeadlineMiss { task: (n - 1) as usize, deadline: ts[n - 1].deadline },
        )
    } else {
        miss_events(ts, now, n - 1)
    }
}

// ----- scheduling -----

/// The ready-set snapshot of the first `n` tasks, in task order.
pub open spec fn ready_entries(ts: Seq<TaskView>, n: int) -> Seq<ReadyEntry>
    decreases n,
{
    if n <= 0 {
        Seq::empty()
    } else if is_ready(ts[n - 1]) {
        ready_entries(ts, n - 1).push(
            ReadyEntry { id: ts[n - 1].id, base: ts[n - 1].base_priority, eff: ts[n - 1].eff_priority },
        )
    } else {
        ready_entries(ts, n - 1)
    }
}

/// The highest effective priority in a ready snapshot (0 when empty).
pub open spec fn max_eff(rs: Seq<ReadyEntry>) -> u8
    decreases rs.len(),
{
    if rs.len() == 0 {
        0
    } else {
        let m = max_eff(rs.drop_last());
        if rs.last().eff > m {
            rs.last().eff
        } else {
            m
        }
    }
}

/// Task `i` is the scheduler's pick: it is ready, and every ready task has a lower
/// effective priority or the same priority and a higher index.
pub open spec fn is_pick(ts: Seq<TaskView>, i: int) -> bool {
    &&& 0 <= i < ts.len()
    &&& is_ready(ts[i])
    &&& forall|j: int|
        0 <= j < ts.len() && is_ready(ts[j]) ==> ts[j].eff_priority < ts[i].eff_priority || (
        ts[j].eff_priority == ts[i].eff_priority && j >= i)
}

/// The task the scheduler picks, if any task is ready.
pub open spec fn picked(ts: Seq<TaskView>) -> Option<usize> {
    if exists|i: int| is_pick(ts, i) {
        Some((choose|i: int| is_pick(ts, i)) as usize)
    } else {
        None
    }
}

// ----- priority inheritance -----

/// The number of tasks whose effective priority is below `w`.
pub open spec fn count_below(ts: Seq<TaskView>, w: u8) -> nat
    decreases ts.len(),
{
    if ts.len() == 0 {
        0
    } else {
        count_below(ts.drop_last(), w) + if ts.last().eff_priority < w {
            1nat
        } else {
            0nat
        }
    }
}

pub proof fn lemma_count_below_raise(ts: Seq<TaskView>, i: int, t: TaskView, w: u8)
    requires
        0 <= i < ts.len(),
        ts[i].eff_priority < w,
        t.eff_priority == w,
    ensures
        count_below(ts.update(i, t), w) + 1 == count_below(ts, w),
    decreases ts.len(),
{
    let us = ts.update(i, t);
    if i == ts.len() - 1 {
        assert(us.drop_last() =~= ts.drop_last());
    } else {
        lemma_count_below_raise(ts.drop_last(), i, t, w);
        assert(us.drop_last() =~= ts.drop_last().update(i, t));
    }
}

/// The highest effective priority among the first `n` tasks in `ws`, starting from `p`.
pub open spec fn waiters_max(effs: Seq<u8>, ws: Seq<usize>, n: int, p: u8) -> u8
    decreases n,
{
    if n <= 0 {
        p
    } else {
        let q = waiters_max(effs, ws, n - 1, p);
        let e = effs[ws[n - 1] as int];
        if e > q {
            e
        } else {
            q
        }
    }
}

impl KernelView {
    /// A new kernel with nothing registered.
    pub open spec fn initial(config: Config, mcu: McuView) -> KernelView {
        KernelView {
            mcu,
            tasks: Seq::empty(),
            mutexes: Seq::empty(),
            semaphores: Seq::empty(),
            queues: Seq::empty(),
            log: Seq::empty(),
            records: Seq::empty(),
            rng: crate::rng::seeded_state(config.seed),
            config,
            now: 0,
            running: None,
            idle_ticks: 0,
            invariant_violations: 0,
        }
    }

    /// The kernel after `t` is added: it takes the next id, is suspended, and is first
    /// released at tick 1.
    pub open spec fn with_new_task(self, t: TaskView) -> KernelView {
        KernelView {
            tasks: self.tasks.push(
                TaskView {
                    id: self.tasks.len() as usize,
                    next_release: 1,
                    state: TaskState::Suspended,
                    ..t
                },
            ),
            ..self
        }
    }

    /// The effective priority of every task, by id.
    pub open spec fn eff_table(self) -> Seq<u8> {
        Seq::new(self.tasks.len(), |i: int| self.tasks[i].eff_priority)
    }

    pub open spec fn logged(self, e: Event) -> KernelView {
        KernelView { log: self.log.push(e), ..self }
    }

    pub open spec fn set_task(self, i: usize, t: TaskView) -> KernelView {
        KernelView { tasks: self.tasks.update(i as int, t), ..self }
    }

    pub open spec fn set_mutex(self, m: usize, v: MutexView) -> KernelView {
        KernelView { mutexes: self.mutexes.update(m as int, v), ..self }
    }

    pub open spec fn set_semaphore(self, s: usize, v: SemaphoreView) -> KernelView {
        KernelView { semaphores: self.semaphores.update(s as int, v), ..self }
    }

    pub open spec fn set_queue(self, q: usize, v: QueueView) -> KernelView {
        KernelView { queues: self.queues.update(q as int, v), ..self }
    }

    pub open spec fn idle_cpu(self) -> KernelView {
        KernelView { running: None, ..self }
    }

    // ----- the tick ISR -----

    /// The kernel after the tick ISR: releases due jobs, wakes sleepers whose time
    /// has come, and flags active jobs past their deadline.
    pub open spec fn ticked(self) -> KernelView {
        let now = self.now;
        let n = self.tasks.len();
        let t1 = Seq::new(n, |i: int| released(self.tasks[i], now));
        let t2 = Seq::new(n, |i: int| slept(t1[i], now));
        let t3 = Seq::new(n, |i: int| deadline_checked(t2[i], now));
        KernelView {
            tasks: t3,
            log: self.log + release_events(self.tasks, now, n as int) + miss_events(t2, now, n as int),
            ..self
        }
    }

    // ----- inheritance -----

    /// The kernel after the inheritance walk starting at `current`: while the task is
    /// blocked on a held mutex whose owner has a lower effective priority, the owner
    /// is boosted to the task's priority and the walk moves to the owner.
    pub open spec fn inherited(self, current: usize) -> KernelView
        decreases count_below(self.tasks, self.tasks[current as int].eff_priority),
    {
        if current < self.tasks.len() {
            match self.tasks[current as int].blocked_on {
                Some(BlockReason::Mutex(mid)) => {
                    if mid < self.mutexes.len() {
                        match self.mutexes[mid as int].owner {
                            Some(o) => {
                                let want = self.tasks[current as int].eff_priority;
                                if o < self.tasks.len() && want > self.tasks[o as int].eff_priority {
                                    proof {
                                        lemma_count_below_raise(
                                            self.tasks,
                                            o as int,
                                            self.tasks[o as int].with_eff(want),
                                            want,
                                        );
                                    }
                                    self.set_task(o, self.tasks[o as int].with_eff(want)).logged(
                                        Event::Inherit { holder: o, boosted_to: want, waiter: current },
                                    ).inherited(o)
                                } else {
                                    self
                                }
                            },
                            None => self,
                        }
                    } else {
                        self
                    }
                },
                _ => self,
            }
        } else {
            self
        }
    }

    /// What the inheritance walk from `current` reads exists: each task on the chain,
    /// the mutex it waits on, and that mutex's owner.
    pub open spec fn chain_ok(self, current: usize) -> bool
        decreases count_below(self.tasks, self.tasks[current as int].eff_priority),
    {
        &&& current < self.tasks.len()
        &&& match self.tasks[current as int].blocked_on {
            Some(BlockReason::Mutex(mid)) => {
                &&& mid < self.mutexes.len()
                &&& match self.mutexes[mid as int].owner {
                    Some(o) => {
                        let want = self.tasks[current as int].eff_priority;
                        &&& o < self.tasks.len()
                        &&& if want > self.tasks[o as int].eff_priority {
                            proof {
                                lemma_count_below_raise(self.tasks, o as int, self.tasks[o as int].with_eff(want), want);
                            }
                            self.set_task(o, self.tasks[o as int].with_eff(want)).logged(
                                Event::Inherit { holder: o, boosted_to: want, waiter: current },
                            ).chain_ok(o)
                        } else {
                            true
                        }
                    },
                    None => true,
                }
            },
            _ => true,
        }
    }

    /// The highest effective priority among the waiters of the first `n` mutexes of
    /// `ms`, starting from `p`.
    pub open spec fn held_max(self, ms: Seq<usize>, n: int, p: u8) -> u8
        decreases n,
    {
        if n <= 0 {
            p
        } else {
            let q = self.held_max(ms, n - 1, p);
            let ws = self.mutexes[ms[n - 1] as int].waiters;
            waiters_max(self.eff_table(), ws, ws.len() as int, q)
        }
    }

    /// The priority `holder` is entitled to: its base priority raised to that of every
    /// task waiting on a mutex it holds.
    pub open spec fn entitled(self, holder: usize) -> u8 {
        let t = self.tasks[holder as int];
        self.held_max(t.held_mutexes, t.held_mutexes.len() as int, t.base_priority)
    }

    /// The kernel after `holder`'s effective priority is recomputed; a change is logged.
    pub open spec fn recomputed(self, holder: usize) -> KernelView {
        let p = self.entitled(holder);
        if p != self.tasks[holder as int].eff_priority {
            self.set_task(holder, self.tasks[holder as int].with_eff(p)).logged(
                Event::Restore { holder, to: p },
            )
        } else {
            self
        }
    }

    // ----- operations -----

    /// The kernel after `tid` completes its job.
    pub open spec fn completed(self, tid: usize) -> KernelView {
        self.set_task(tid, self.tasks[tid as int].finished()).idle_cpu().logged(
            Event::Complete { task: tid },
        )
    }

    pub open spec fn op_compute(self, tid: usize, n: u64) -> (KernelView, bool) {
        let t = self.tasks[tid as int];
        let cr = if t.compute_remaining == 0 {
            n
        } else {
            t.compute_remaining
        };
        if cr == 0 {
            (self.set_task(tid, TaskView { compute_remaining: 0, ..t }.advanced()), true)
        } else {
            let t2 = TaskView {
                compute_remaining: (cr - 1) as u64,
                cpu_ticks: (t.cpu_ticks + 1) as u64,
                ..t
            };
            if cr == 1 {
                let t3 = t2.advanced();
                let k = self.set_task(tid, t3);
                if t3.pc >= t3.program.len() {
                    (k.completed(tid), false)
                } else {
                    (k, false)
                }
            } else {
                (self.set_task(tid, t2), false)
            }
        }
    }

    pub open spec fn op_delay(self, tid: usize, n: u64) -> (KernelView, bool) {
        let t = self.tasks[tid as int].advanced();
        if n == 0 {
            (self.set_task(tid, t), true)
        } else {
            let until = (self.now + n) as u64;
            (
                self.set_task(tid, TaskView { wake_at: until, ..t.parked(BlockReason::Sleep) }).idle_cpu().logged(
                    Event::Sleep { task: tid, until },
                ),
                false,
            )
        }
    }

    pub open spec fn op_gpio_set(self, tid: usize, pin: usize, level: bool) -> KernelView {
        KernelView {
            mcu: McuView { gpio: pins_after_set(self.mcu.gpio, pin, level), ..self.mcu },
            ..self
        }.set_task(tid, self.tasks[tid as int].advanced()).logged(Event::Gpio { task: tid, pin, level })
    }

    pub open spec fn op_gpio_toggle(self, tid: usize, pin: usize) -> KernelView {
        let pins = pins_after_toggle(self.mcu.gpio, pin);
        let level = match pin_level(pins, pin) {
            Some(l) => l,
            None => false,
        };
        KernelView { mcu: McuView { gpio: pins, ..self.mcu }, ..self }.set_task(
            tid,
            self.tasks[tid as int].advanced(),
        ).logged(Event::Gpio { task: tid, pin, level })
    }

    pub open spec fn op_uart(self, tid: usize, text: String) -> KernelView {
        KernelView {
            mcu: McuView { uart: self.mcu.uart.sent(text@), ..self.mcu },
            ..self
        }.set_task(tid, self.tasks[tid as int].advanced()).logged(Event::Uart { task: tid, text })
    }

    pub open spec fn op_lock(self, tid: usize, m: usize) -> (KernelView, bool) {
        let t = self.tasks[tid as int];
        let mx = self.mutexes[m as int];
        match mx.owner {
            None => (
                self.set_mutex(m, mx.acquired(tid)).set_task(
                    tid,
                    TaskView { held_mutexes: t.held_mutexes.push(m), ..t }.advanced(),
                ).logged(Event::Lock { task: tid, mutex: m }),
                true,
            ),
            Some(owner) => {
                let k = self.set_mutex(m, mx.with_waiter(tid)).set_task(
                    tid,
                    t.parked(BlockReason::Mutex(m)),
                ).idle_cpu().logged(Event::BlockOnMutex { task: tid, mutex: m, owner });
                (
                    if self.config.priority_inheritance {
                        k.inherited(tid)
                    } else {
                        k
                    },
                    false,
                )
            },
        }
    }

    pub open spec fn op_unlock(self, tid: usize, m: usize) -> KernelView {
        let t = self.tasks[tid as int];
        let mx = self.mutexes[m as int];
        let (mv, next) = mx.released(tid, ranks_of(mx.waiters, self.eff_table()));
        let k1 = self.set_mutex(m, mv).set_task(
            tid,
            TaskView { held_mutexes: without_value(t.held_mutexes, m), ..t }.advanced(),
        ).logged(Event::Unlock { task: tid, mutex: m });
        let pi = self.config.priority_inheritance;
        let k2 = if pi {
            k1.recomputed(tid)
        } else {
            k1
        };
        match next {
            Some(n) => {
                let tn = k2.tasks[n as int];
                let k3 = k2.set_task(
                    n,
                    TaskView { held_mutexes: tn.held_mutexes.push(m), ..tn }.woken_up().advanced(),
                ).logged(Event::Lock { task: n, mutex: m });
                if pi {
                    k3.recomputed(n)
                } else {
                    k3
                }
            },
            None => k2,
        }
    }

    pub open spec fn op_sem_wait(self, tid: usize, s: usize) -> (KernelView, bool) {
        let sv = self.semaphores[s as int];
        if sv.count > 0 {
            (
                self.set_semaphore(s, sv.taken()).set_task(tid, self.tasks[tid as int].advanced()).logged(
                    Event::SemWait { task: tid, sem: s },
                ),
                true,
            )
        } else {
            (
                self.set_semaphore(s, sv.with_waiter(tid)).set_task(
                    tid,
                    self.tasks[tid as int].parked(BlockReason::Semaphore(s)),
                ).idle_cpu().logged(Event::SemBlock { task: tid, sem: s }),
                false,
            )
        }
    }

    pub open spec fn op_sem_signal(self, tid: usize, s: usize) -> KernelView {
        let sv = self.semaphores[s as int];
        let (sv2, woken) = sv.signaled(ranks_of(sv.waiters, self.eff_table()));
        let k1 = self.set_semaphore(s, sv2).set_task(tid, self.tasks[tid as int].advanced()).logged(
            Event::SemSignal { task: tid, sem: s },
        );
        match woken {
            Some(w) => k1.set_task(w, k1.tasks[w as int].woken_up().advanced()).logged(
                Event::SemWait { task: w, sem: s },
            ),
            None => k1,
        }
    }

    pub open spec fn op_queue_send(self, tid: usize, q: usize, value: u32) -> (KernelView, bool) {
        let qv = self.queues[q as int];
        let (qv1, ok) = qv.after_send(value);
        if ok {
            let k1 = self.set_queue(q, qv1).set_task(tid, self.tasks[tid as int].advanced()).logged(
                Event::QueueSend { task: tid, queue: q, value },
            );
            let (qv2, r) = qv1.after_wake_receiver(ranks_of(qv1.recv_waiters, k1.eff_table()));
            let k2 = k1.set_queue(q, qv2);
            (
                match r {
                    Some(r) => k2.set_task(r, k2.tasks[r as int].woken_up()),
                    None => k2,
                },
                true,
            )
        } else {
            (
                self.set_queue(q, QueueView { send_waiters: qv.send_waiters.push(tid), ..qv }).set_task(
                    tid,
                    self.tasks[tid as int].parked(BlockReason::QueueSend(q)),
                ).idle_cpu().logged(Event::QueueBlock { task: tid, queue: q }),
                false,
            )
        }
    }

    pub open spec fn op_queue_recv(self, tid: usize, q: usize) -> (KernelView, bool) {
        let qv = self.queues[q as int];
        let (qv1, v) = qv.after_recv();
        match v {
            Some(value) => {
                let k1 = self.set_queue(q, qv1).set_task(tid, self.tasks[tid as int].advanced()).logged(
                    Event::QueueRecv { task: tid, queue: q, value },
                );
                let (qv2, s) = qv1.after_wake_sender(ranks_of(qv1.send_waiters, k1.eff_table()));
                let k2 = k1.set_queue(q, qv2);
                (
                    match s {
                        Some(s) => k2.set_task(s, k2.tasks[s as int].woken_up()),
                        None => k2,
                    },
                    true,
                )
            },
            None => (
                self.set_queue(q, QueueView { recv_waiters: qv.recv_waiters.push(tid), ..qv }).set_task(
                    tid,
                    self.tasks[tid as int].parked(BlockReason::QueueRecv(q)),
                ).idle_cpu().logged(Event::QueueBlock { task: tid, queue: q }),
                false,
            ),
        }
    }

    /// One iteration of `tid`'s quantum: the state after it, and whether the quantum
    /// goes on to the next operation.
    pub open spec fn op_step(self, tid: usize) -> (KernelView, bool) {
        match self.tasks[tid as int].current_op() {
            None => (self.completed(tid), false),
            Some(op) => match op {
                Op::Compute(n) => self.op_compute(tid, n),
                Op::Delay(n) => self.op_delay(tid, n),
                Op::GpioSet(pin, level) => (self.op_gpio_set(tid, pin, level), true),
                Op::GpioToggle(pin) => (self.op_gpio_toggle(tid, pin), true),
                Op::Uart(text) => (self.op_uart(tid, text), true),
                Op::Lock(m) => self.op_lock(tid, m),
                Op::Unlock(m) => (self.op_unlock(tid, m), true),
                Op::SemWait(s) => self.op_sem_wait(tid, s),
                Op::SemSignal(s) => (self.op_sem_signal(tid, s), true),
                Op::QueueSend(q, v) => self.op_queue_send(tid, q, v),
                Op::QueueRecv(q) => self.op_queue_recv(tid, q),
            },
        }
    }

    /// The part of `tid`'s program still ahead in this job.
    pub open spec fn ops_left(self, tid: usize) -> int {
        let t = self.tasks[tid as int];
        if t.pc < t.program.len() {
            t.program.len() - t.pc
        } else {
            0
        }
    }

    /// An iteration that goes on has moved `tid` forward in the same program.
    pub open spec fn makes_progress(self, next: KernelView, tid: usize) -> bool {
        &&& tid < self.tasks.len()
        &&& next.tasks.len() == self.tasks.len()
        &&& next.tasks[tid as int].program.len() == self.tasks[tid as int].program.len()
        &&& self.tasks[tid as int].pc < self.tasks[tid as int].program.len()
        &&& next.tasks[tid as int].pc > self.tasks[tid as int].pc
    }

    /// The kernel after `tid` runs one quantum: operations run in order until a
    /// compute step consumes the tick, the task blocks, or the job ends.
    pub open spec fn quantum(self, tid: usize) -> KernelView
        decreases self.ops_left(tid),
    {
        let (k, go_on) = self.op_step(tid);
        if go_on && self.makes_progress(k, tid) {
            k.quantum(tid)
        } else {
            k
        }
    }

    // ----- the tick -----

    /// The kernel just before `tid` runs: an invariant violation is counted if it does
    /// not carry the highest effective priority `top`, the previously running task is
    /// preempted if it was still running, and `tid` becomes the running task.
    pub open spec fn dispatch_prep(self, tid: usize, top: u8) -> KernelView {
        let k1 = if self.tasks[tid as int].eff_priority < top {
            KernelView { invariant_violations: (self.invariant_violations + 1) as u64, ..self }
        } else {
            self
        };
        let k2 = match self.running {
            Some(prev) => if prev != tid && k1.tasks[prev as int].state == TaskState::Running {
                let tp = k1.tasks[prev as int];
                k1.set_task(
                    prev,
                    TaskView {
                        state: TaskState::Ready,
                        preemptions: (tp.preemptions + 1) as u64,
                        ..tp
                    },
                ).logged(Event::Preempt { preempted: prev, by: tid })
            } else {
                k1
            },
            None => k1,
        };
        KernelView { running: Some(tid), ..k2 }.set_task(
            tid,
            TaskView { state: TaskState::Running, ..k2.tasks[tid as int] },
        ).logged(Event::Run { task: tid })
    }

    /// The kernel after `tid` is dispatched and runs one quantum.
    pub open spec fn dispatched(self, tid: usize, top: u8) -> KernelView {
        self.dispatch_prep(tid, top).quantum(tid)
    }

    /// The kernel after the clock advances one tick and the pending interrupt lines
    /// are taken for servicing.
    pub open spec fn clocked(self) -> KernelView {
        let now = (self.now + 1) as u64;
        let m1 = self.mcu.cycled();
        KernelView {
            now,
            log: self.log.push(Event::Tick(now)),
            mcu: McuView { nvic: m1.nvic.drained(), ..m1 },
            ..self
        }
    }

    /// The timer line is among those serviced at the next tick.
    pub open spec fn timer_due(self) -> bool {
        self.mcu.cycled().nvic.pending.contains(Irq::Timer)
    }

    /// The kernel after the clock advances and the pending interrupts are serviced.
    pub open spec fn serviced(self) -> KernelView {
        if self.timer_due() {
            self.clocked().ticked()
        } else {
            self.clocked()
        }
    }

    /// The scheduling decision's record appended.
    pub open spec fn recorded(self) -> KernelView {
        let ready = ready_entries(self.tasks, self.tasks.len() as int);
        KernelView {
            records: self.records.push(
                TickRecordView { tick: self.now, ran: picked(self.tasks), ready },
            ),
            ..self
        }
    }

    /// The kernel after it schedules: the decision is recorded, then the picked task is
    /// dispatched or the CPU idles.
    pub open spec fn scheduled(self) -> KernelView {
        let ready = ready_entries(self.tasks, self.tasks.len() as int);
        let k = self.recorded();
        match picked(self.tasks) {
            None => KernelView {
                running: None,
                idle_ticks: (k.idle_ticks + 1) as u64,
                log: k.log.push(Event::Idle),
                ..k
            },
            Some(tid) => k.dispatched(tid, max_eff(ready)),
        }
    }

    /// The kernel after one tick.
    pub open spec fn stepped(self) -> KernelView {
        self.serviced().scheduled()
    }

    /// The kernel after `n` ticks.
    pub open spec fn run_for(self, n: nat) -> KernelView
        decreases n,
    {
        if n == 0 {
            self
        } else {
            self.stepped().run_for((n - 1) as nat)
        }
    }
}

} // verus!
