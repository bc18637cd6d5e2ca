//! Well-formedness of a kernel state, and the room its counters need for a tick.
use vstd::prelude::*;
use crate::kernel::model::{is_due, is_ready, misses, picked, ready_entries, released, slept, max_eff, KernelView};
use crate::kernel::task::{BlockReason, Op, TaskView};
use crate::mcu::uart::wire_len;

verus! {

/// An operation names only synchronization objects that exist.
pub open spec fn op_valid(op: Op, n_mutexes: nat, n_sems: nat, n_queues: nat) -> bool {
    match op {
        Op::Lock(m) => m < n_mutexes,
        Op::Unlock(m) => m < n_mutexes,
        Op::SemWait(s) => s < n_sems,
        Op::SemSignal(s) => s < n_sems,
        Op::QueueSend(q, _) => q < n_queues,
        Op::QueueRecv(q) => q < n_queues,
        _ => true,
    }
}

/// `t` is parked on `reason` in the middle of a job.
pub open spec fn waiting_on(t: TaskView, reason: BlockReason) -> bool {
    t.state == crate::kernel::task::TaskState::Blocked && t.blocked_on == Some(reason) && t.job_active
}

impl KernelView {
    /// `t` would be a well-formed task at position `i` of this kernel.
    pub open spec fn task_ok_with(self, i: int, t: TaskView) -> bool {
        &&& t.id == i
        &&& t.pc <= t.program.len()
        &&& t.program.len() <= usize::MAX
        &&& forall|j: int| 0 <= j < t.held_mutexes.len() ==> t.held_mutexes[j] < self.mutexes.len()
        &&& (t.blocked_on matches Some(BlockReason::Mutex(m)) ==> m < self.mutexes.len())
        &&& forall|j: int|
            0 <= j < t.program.len() ==> op_valid(
                t.program[j],
                self.mutexes.len(),
                self.semaphores.len(),
                self.queues.len(),
            )
        &&& (is_ready(t) ==> t.job_active && t.blocked_on is None)
        &&& (t.blocked_on matches Some(r) && r != BlockReason::WaitPeriod ==> t.job_active)
    }

    /// `t` can join this kernel: not past the end of its program, holding and waiting
    /// on nothing, and every operation naming an existing mutex, semaphore or queue.
    pub open spec fn admits(self, t: TaskView) -> bool {
        &&& t.pc <= t.program.len()
        &&& t.held_mutexes.len() == 0
        &&& t.blocked_on is None
        &&& forall|j: int|
            0 <= j < t.program.len() ==> op_valid(
                #[trigger] t.program[j],
                self.mutexes.len(),
                self.semaphores.len(),
                self.queues.len(),
            )
    }

    pub open spec fn task_ok(self, i: int) -> bool {
        self.task_ok_with(i, self.tasks[i])
    }

    /// A waiter of a mutex or semaphore is parked on it at the operation that waits.
    pub open spec fn waiter_ok(self, w: usize, reason: BlockReason) -> bool {
        &&& w < self.tasks.len()
        &&& waiting_on(self.tasks[w as int], reason)
        &&& self.tasks[w as int].pc < self.tasks[w as int].program.len()
    }

    pub open spec fn mutex_ok(self, m: int) -> bool {
        let mx = self.mutexes[m];
        &&& (mx.owner matches Some(o) ==> o < self.tasks.len())
        &&& mx.waiters.no_duplicates()
        &&& forall|j: int|
            0 <= j < mx.waiters.len() ==> self.waiter_ok(mx.waiters[j], BlockReason::Mutex(m as usize))
    }

    pub open spec fn sem_ok(self, s: int) -> bool {
        let sv = self.semaphores[s];
        &&& sv.waiters.no_duplicates()
        &&& forall|j: int|
            0 <= j < sv.waiters.len() ==> self.waiter_ok(sv.waiters[j], BlockReason::Semaphore(s as usize))
    }

    pub open spec fn queue_ok(self, q: int) -> bool {
        let qv = self.queues[q];
        &&& qv.recv_waiters.no_duplicates()
        &&& qv.send_waiters.no_duplicates()
        &&& forall|j: int|
            0 <= j < qv.recv_waiters.len() ==> qv.recv_waiters[j] < self.tasks.len() && waiting_on(
                self.tasks[qv.recv_waiters[j] as int],
                BlockReason::QueueRecv(q as usize),
            )
        &&& forall|j: int|
            0 <= j < qv.send_waiters.len() ==> qv.send_waiters[j] < self.tasks.len() && waiting_on(
                self.tasks[qv.send_waiters[j] as int],
                BlockReason::QueueSend(q as usize),
            )
    }

    /// The kernel's structural invariant: ids match positions, program counters stay
    /// in their programs, every referenced object exists, and every waiter list holds
    /// exactly tasks parked on that object.
    pub open spec fn wf(self) -> bool {
        &&& self.mcu.wf()
        &&& self.tasks.len() <= usize::MAX
        &&& self.mutexes.len() <= usize::MAX
        &&& self.semaphores.len() <= usize::MAX
        &&& self.queues.len() <= usize::MAX
        &&& (self.running matches Some(r) ==> r < self.tasks.len())
        &&& forall|i: int| 0 <= i < self.tasks.len() ==> self.task_ok(i)
        &&& forall|m: int| 0 <= m < self.mutexes.len() ==> self.mutex_ok(m)
        &&& forall|s: int| 0 <= s < self.semaphores.len() ==> self.sem_ok(s)
        &&& forall|q: int| 0 <= q < self.queues.len() ==> self.queue_ok(q)
    }

    pub open spec fn task_refs_ok(self, i: int) -> bool {
        &&& forall|j: int|
            0 <= j < self.tasks[i].held_mutexes.len() ==> self.tasks[i].held_mutexes[j] < self.mutexes.len()
        &&& (self.tasks[i].blocked_on matches Some(BlockReason::Mutex(m)) ==> m < self.mutexes.len())
    }

    pub open spec fn mutex_refs_ok(self, m: int) -> bool {
        &&& (self.mutexes[m].owner matches Some(o) ==> o < self.tasks.len())
        &&& forall|j: int|
            0 <= j < self.mutexes[m].waiters.len() ==> self.mutexes[m].waiters[j] < self.tasks.len()
    }

    /// What recomputing `h`'s priority reads exists: the mutexes `h` holds, and the
    /// tasks waiting on them.
    pub open spec fn holder_refs_ok(self, h: int) -> bool {
        &&& 0 <= h < self.tasks.len()
        &&& forall|j: int| 0 <= j < self.tasks[h].held_mutexes.len() ==> self.tasks[h].held_mutexes[j] < self.mutexes.len()
        &&& forall|j: int|
            0 <= j < self.tasks[h].held_mutexes.len() ==> #[trigger] self.mutex_refs_ok(
                self.tasks[h].held_mutexes[j] as int,
            )
    }

    /// Every task and mutex reference held by tasks and mutexes names an existing
    /// object: what the inheritance walk and the priority recomputation read.
    pub open spec fn refs_ok(self) -> bool {
        &&& forall|i: int| 0 <= i < self.tasks.len() ==> #[trigger] self.task_refs_ok(i)
        &&& forall|m: int| 0 <= m < self.mutexes.len() ==> #[trigger] self.mutex_refs_ok(m)
    }

    pub proof fn lemma_wf_refs_ok(self)
        requires
            self.wf(),
        ensures
            self.refs_ok(),
    {
        assert forall|i: int| 0 <= i < self.tasks.len() implies #[trigger] self.task_refs_ok(i) by {
            assert(self.task_ok(i));
        }
        assert forall|m: int| 0 <= m < self.mutexes.len() implies #[trigger] self.mutex_refs_ok(m) by {
            assert(self.mutex_ok(m));
            assert forall|j: int| 0 <= j < self.mutexes[m].waiters.len() implies self.mutexes[m].waiters[j]
                < self.tasks.len() by {
                assert(self.waiter_ok(self.mutexes[m].waiters[j], BlockReason::Mutex(m as usize)));
            }
        }
    }

    /// Changing only effective priorities and the log keeps every reference valid.
    /// Valid references everywhere include those the inheritance walk reads.
    pub proof fn lemma_refs_chain(self, current: usize)
        requires
            self.refs_ok(),
            current < self.tasks.len(),
        ensures
            self.chain_ok(current),
        decreases crate::kernel::model::count_below(self.tasks, self.tasks[current as int].eff_priority),
    {
        assert(self.task_refs_ok(current as int));
        match self.tasks[current as int].blocked_on {
            Some(BlockReason::Mutex(mid)) => {
                assert(self.mutex_refs_ok(mid as int));
                match self.mutexes[mid as int].owner {
                    Some(o) => {
                        let want = self.tasks[current as int].eff_priority;
                        if want > self.tasks[o as int].eff_priority {
                            let e = crate::kernel::Event::Inherit { holder: o, boosted_to: want, waiter: current };
                            self.lemma_refs_ok_eff(o, want, e);
                            crate::kernel::model::lemma_count_below_raise(
                                self.tasks,
                                o as int,
                                self.tasks[o as int].with_eff(want),
                                want,
                            );
                            self.set_task(o, self.tasks[o as int].with_eff(want)).logged(e).lemma_refs_chain(o);
                        }
                    },
                    None => {},
                }
            },
            _ => {},
        }
    }

    /// Valid references everywhere include those a recomputation reads.
    pub proof fn lemma_refs_holder(self, h: int)
        requires
            self.refs_ok(),
            0 <= h < self.tasks.len(),
        ensures
            self.holder_refs_ok(h),
    {
        assert(self.task_refs_ok(h));
        assert forall|j: int| 0 <= j < self.tasks[h].held_mutexes.len() implies #[trigger] self.mutex_refs_ok(
            self.tasks[h].held_mutexes[j] as int,
        ) by {
            assert(self.tasks[h].held_mutexes[j] < self.mutexes.len());
        }
    }

    pub proof fn lemma_refs_ok_eff(self, i: usize, p: u8, e: crate::kernel::Event)
        requires
            self.refs_ok(),
            i < self.tasks.len(),
        ensures
            self.set_task(i, self.tasks[i as int].with_eff(p)).logged(e).refs_ok(),
    {
        let k = self.set_task(i, self.tasks[i as int].with_eff(p)).logged(e);
        assert forall|t: int| 0 <= t < k.tasks.len() implies #[trigger] k.task_refs_ok(t) by {
            assert(self.task_refs_ok(t));
        }
        assert forall|m: int| 0 <= m < k.mutexes.len() implies #[trigger] k.mutex_refs_ok(m) by {
            assert(self.mutex_refs_ok(m));
        }
    }

    // ----- room in the counters -----

    /// Room in the counters for one iteration of `tid`'s quantum.
    pub open spec fn op_fits(self, tid: usize) -> bool {
        let t = self.tasks[tid as int];
        match t.current_op() {
            None => t.jobs_completed < u64::MAX,
            Some(op) => match op {
                Op::Compute(n) => {
                    let cr = if t.compute_remaining == 0 {
                        n
                    } else {
                        t.compute_remaining
                    };
                    cr != 0 ==> (t.cpu_ticks < u64::MAX && (cr == 1 && t.pc + 1 >= t.program.len()
                        ==> t.jobs_completed < u64::MAX))
                },
                Op::Delay(n) => n != 0 ==> self.now + n <= u64::MAX,
                Op::Uart(text) => self.mcu.uart.bytes_out + wire_len(text@) <= u64::MAX,
                Op::QueueSend(q, _) => !self.queues[q as int].is_full() ==> self.queues[q as int].sent
                    < u64::MAX,
                Op::QueueRecv(q) => self.queues[q as int].buf.len() > 0 ==> self.queues[q as int].received
                    < u64::MAX,
                _ => true,
            },
        }
    }

    /// Room in the counters for `tid`'s whole quantum.
    pub open spec fn quantum_fits(self, tid: usize) -> bool
        decreases self.ops_left(tid),
    {
        let (k, go_on) = self.op_step(tid);
        &&& self.op_fits(tid)
        &&& (go_on && self.makes_progress(k, tid) ==> k.quantum_fits(tid))
    }

    /// Room in the counters for the tick ISR.
    pub open spec fn tick_fits(self) -> bool {
        let now = self.now;
        &&& forall|i: int|
            0 <= i < self.tasks.len() && is_due(#[trigger] self.tasks[i], now) ==> {
                &&& self.tasks[i].jobs_released < u64::MAX
                &&& (self.tasks[i].period matches Some(p) ==> now + p <= u64::MAX
                    && self.tasks[i].next_release + p <= u64::MAX)
            }
        &&& forall|i: int|
            0 <= i < self.tasks.len() && misses(slept(released(#[trigger] self.tasks[i], now), now), now)
                ==> slept(released(self.tasks[i], now), now).deadlines_missed < u64::MAX
    }

    /// Room in the counters for one whole tick.
    pub open spec fn step_fits(self) -> bool {
        let k = self.serviced();
        let ready = ready_entries(k.tasks, k.tasks.len() as int);
        &&& self.now < u64::MAX
        &&& self.mcu.can_cycle()
        &&& self.mcu.cycled().nvic.serviced + self.mcu.cycled().nvic.pending.len() <= u64::MAX
        &&& (self.timer_due() ==> self.clocked().tick_fits())
        &&& match picked(k.tasks) {
            None => k.idle_ticks < u64::MAX,
            Some(tid) => {
                &&& match k.running {
                    Some(prev) => prev != tid && k.tasks[prev as int].state
                        == crate::kernel::task::TaskState::Running ==> k.tasks[prev as int].preemptions
                        < u64::MAX,
                    None => true,
                }
                &&& k.recorded().dispatch_prep(tid, max_eff(ready)).quantum_fits(tid)
            },
        }
    }

    /// Room in the counters for `n` ticks.
    pub open spec fn run_fits(self, n: nat) -> bool
        decreases n,
    {
        n == 0 || (self.step_fits() && self.stepped().run_fits((n - 1) as nat))
    }
}

} // verus!
