//! The kernel's structural invariant is kept by every transition.
use vstd::prelude::*;
use crate::kernel::{BlockReason, Event, KernelView, Op, QueueView, TaskState, TaskView};
use crate::kernel::model::{deadline_checked, is_ready, released, slept};
use crate::kernel::wellformed::waiting_on;

verus! {

impl KernelView {
    /// `i` occurs in no waiter list.
    pub open spec fn not_waiting(self, i: usize) -> bool {
        &&& forall|m: int, j: int|
            0 <= m < self.mutexes.len() && 0 <= j < self.mutexes[m].waiters.len()
                ==> self.mutexes[m].waiters[j] != i
        &&& forall|s: int, j: int|
            0 <= s < self.semaphores.len() && 0 <= j < self.semaphores[s].waiters.len()
                ==> self.semaphores[s].waiters[j] != i
        &&& forall|q: int, j: int|
            0 <= q < self.queues.len() && 0 <= j < self.queues[q].recv_waiters.len()
                ==> self.queues[q].recv_waiters[j] != i
        &&& forall|q: int, j: int|
            0 <= q < self.queues.len() && 0 <= j < self.queues[q].send_waiters.len()
                ==> self.queues[q].send_waiters[j] != i
    }

    /// A ready or running task waits on nothing.
    pub proof fn lemma_ready_not_waiting(self, i: usize)
        requires
            self.wf(),
            i < self.tasks.len(),
            is_ready(self.tasks[i as int]),
        ensures
            self.not_waiting(i),
    {
        assert forall|m: int, j: int|
            0 <= m < self.mutexes.len() && 0 <= j < self.mutexes[m].waiters.len() implies self.mutexes[m].waiters[j]
            != i by {
            assert(self.mutex_ok(m));
            assert(self.waiter_ok(self.mutexes[m].waiters[j], BlockReason::Mutex(m as usize)));
        }
        assert forall|s: int, j: int|
            0 <= s < self.semaphores.len() && 0 <= j < self.semaphores[s].waiters.len() implies self.semaphores[s].waiters[j]
            != i by {
            assert(self.sem_ok(s));
            assert(self.waiter_ok(self.semaphores[s].waiters[j], BlockReason::Semaphore(s as usize)));
        }
        assert forall|q: int, j: int|
            0 <= q < self.queues.len() && 0 <= j < self.queues[q].recv_waiters.len() implies self.queues[q].recv_waiters[j]
            != i by {
            assert(self.queue_ok(q));
        }
        assert forall|q: int, j: int|
            0 <= q < self.queues.len() && 0 <= j < self.queues[q].send_waiters.len() implies self.queues[q].send_waiters[j]
            != i by {
            assert(self.queue_ok(q));
        }
    }

    /// Replacing a task that waits on nothing by another well-formed task keeps the
    /// kernel well formed.
    pub proof fn lemma_set_task_wf(self, i: usize, t: TaskView)
        requires
            self.wf(),
            i < self.tasks.len(),
            self.not_waiting(i),
            self.task_ok_with(i as int, t),
        ensures
            self.set_task(i, t).wf(),
            self.set_task(i, t).not_waiting(i),
    {
        let k = self.set_task(i, t);
        assert forall|x: int| 0 <= x < k.tasks.len() implies k.task_ok(x) by {
            if x != i {
                assert(self.task_ok(x));
            }
        }
        assert forall|m: int| 0 <= m < k.mutexes.len() implies k.mutex_ok(m) by {
            assert(self.mutex_ok(m));
            assert forall|j: int| 0 <= j < k.mutexes[m].waiters.len() implies k.waiter_ok(
                k.mutexes[m].waiters[j],
                BlockReason::Mutex(m as usize),
            ) by {
                assert(self.waiter_ok(self.mutexes[m].waiters[j], BlockReason::Mutex(m as usize)));
            }
        }
        assert forall|s: int| 0 <= s < k.semaphores.len() implies k.sem_ok(s) by {
            assert(self.sem_ok(s));
            assert forall|j: int| 0 <= j < k.semaphores[s].waiters.len() implies k.waiter_ok(
                k.semaphores[s].waiters[j],
                BlockReason::Semaphore(s as usize),
            ) by {
                assert(self.waiter_ok(self.semaphores[s].waiters[j], BlockReason::Semaphore(s as usize)));
            }
        }
        assert forall|q: int| 0 <= q < k.queues.len() implies k.queue_ok(q) by {
            assert(self.queue_ok(q));
        }
    }

    /// Only effective priorities and the log change: the kernel stays well formed.
    pub proof fn lemma_wf_eff_log(self, i: usize, p: u8, e: Event)
        requires
            self.wf(),
            i < self.tasks.len(),
        ensures
            self.set_task(i, self.tasks[i as int].with_eff(p)).logged(e).wf(),
    {
        let k = self.set_task(i, self.tasks[i as int].with_eff(p)).logged(e);
        assert forall|x: int| 0 <= x < k.tasks.len() implies k.task_ok(x) by {
            assert(self.task_ok(x));
        }
        assert forall|m: int| 0 <= m < k.mutexes.len() implies k.mutex_ok(m) by {
            assert(self.mutex_ok(m));
            assert forall|j: int| 0 <= j < k.mutexes[m].waiters.len() implies k.waiter_ok(
                k.mutexes[m].waiters[j],
                BlockReason::Mutex(m as usize),
            ) by {
                assert(self.waiter_ok(self.mutexes[m].waiters[j], BlockReason::Mutex(m as usize)));
            }
        }
        assert forall|s: int| 0 <= s < k.semaphores.len() implies k.sem_ok(s) by {
            assert(self.sem_ok(s));
            assert forall|j: int| 0 <= j < k.semaphores[s].waiters.len() implies k.waiter_ok(
                k.semaphores[s].waiters[j],
                BlockReason::Semaphore(s as usize),
            ) by {
                assert(self.waiter_ok(self.semaphores[s].waiters[j], BlockReason::Semaphore(s as usize)));
            }
        }
        assert forall|q: int| 0 <= q < k.queues.len() implies k.queue_ok(q) by {
            assert(self.queue_ok(q));
        }
    }

    /// The inheritance walk keeps the kernel well formed.
    pub proof fn lemma_inherited_wf(self, current: usize)
        requires
            self.wf(),
        ensures
            self.inherited(current).wf(),
        decreases crate::kernel::model::count_below(self.tasks, self.tasks[current as int].eff_priority),
    {
        if current < self.tasks.len() {
            match self.tasks[current as int].blocked_on {
                Some(BlockReason::Mutex(mid)) => {
                    if mid < self.mutexes.len() {
                        match self.mutexes[mid as int].owner {
                            Some(o) => {
                                let want = self.tasks[current as int].eff_priority;
                                if o < self.tasks.len() && want > self.tasks[o as int].eff_priority {
                                    let e = Event::Inherit { holder: o, boosted_to: want, waiter: current };
                                    self.lemma_wf_eff_log(o, want, e);
                                    crate::kernel::model::lemma_count_below_raise(
                                        self.tasks,
                                        o as int,
                                        self.tasks[o as int].with_eff(want),
                                        want,
                                    );
                                    self.set_task(o, self.tasks[o as int].with_eff(want)).logged(
                                        e,
                                    ).lemma_inherited_wf(o);
                                }
                            },
                            None => {},
                        }
                    }
                },
                _ => {},
            }
        }
    }

    /// Recomputing a holder's priority keeps the kernel well formed.
    pub proof fn lemma_recomputed_wf(self, holder: usize)
        requires
            self.wf(),
            holder < self.tasks.len(),
        ensures
            self.recomputed(holder).wf(),
    {
        let p = self.entitled(holder);
        if p != self.tasks[holder as int].eff_priority {
            self.lemma_wf_eff_log(holder, p, Event::Restore { holder, to: p });
        }
    }

    /// The state right after a running task blocks on a held mutex is well formed.
    pub proof fn lemma_lock_blocked_wf(self, tid: usize, m: usize)
        requires
            self.wf(),
            tid < self.tasks.len(),
            m < self.mutexes.len(),
            crate::kernel::model::is_ready(self.tasks[tid as int]),
            self.tasks[tid as int].current_op() == Some(Op::Lock(m)),
            self.mutexes[m as int].owner is Some,
        ensures
            self.set_mutex(m, self.mutexes[m as int].with_waiter(tid)).set_task(
                tid,
                self.tasks[tid as int].parked(BlockReason::Mutex(m)),
            ).idle_cpu().logged(
                Event::BlockOnMutex { task: tid, mutex: m, owner: self.mutexes[m as int].owner.unwrap() },
            ).wf(),
    {
        self.lemma_ready_not_waiting(tid);
        let mx = self.mutexes[m as int];
        assert(self.mutex_ok(m as int));
        assert(!mx.waiters.contains(tid));
        let k = self.set_mutex(m, mx.with_waiter(tid)).set_task(
            tid,
            self.tasks[tid as int].parked(BlockReason::Mutex(m)),
        ).idle_cpu().logged(Event::BlockOnMutex { task: tid, mutex: m, owner: mx.owner.unwrap() });
        assert(self.task_ok(tid as int));
        assert forall|x: int| 0 <= x < k.tasks.len() implies k.task_ok(x) by {
            assert(self.task_ok(x));
        }
        assert forall|mm: int| 0 <= mm < k.mutexes.len() implies k.mutex_ok(mm) by {
            assert(self.mutex_ok(mm));
            if mm == m {
                assert forall|j: int| 0 <= j < k.mutexes[mm].waiters.len() implies k.waiter_ok(
                    k.mutexes[mm].waiters[j],
                    BlockReason::Mutex(mm as usize),
                ) by {
                    if j < mx.waiters.len() {
                        assert(self.waiter_ok(mx.waiters[j], BlockReason::Mutex(m)));
                    }
                }
            } else {
                assert forall|j: int| 0 <= j < k.mutexes[mm].waiters.len() implies k.waiter_ok(
                    k.mutexes[mm].waiters[j],
                    BlockReason::Mutex(mm as usize),
                ) by {
                    assert(self.waiter_ok(self.mutexes[mm].waiters[j], BlockReason::Mutex(mm as usize)));
                }
            }
        }
        assert forall|s: int| 0 <= s < k.semaphores.len() implies k.sem_ok(s) by {
            assert(self.sem_ok(s));
            assert forall|j: int| 0 <= j < k.semaphores[s].waiters.len() implies k.waiter_ok(
                k.semaphores[s].waiters[j],
                BlockReason::Semaphore(s as usize),
            ) by {
                assert(self.waiter_ok(self.semaphores[s].waiters[j], BlockReason::Semaphore(s as usize)));
            }
        }
        assert forall|q: int| 0 <= q < k.queues.len() implies k.queue_ok(q) by {
            assert(self.queue_ok(q));
        }
    }

    /// A kernel that differs only in its log is well formed exactly when this one is.
    pub proof fn lemma_wf_logged(self, e: Event)
        requires
            self.wf(),
        ensures
            self.logged(e).wf(),
    {
        let k = self.logged(e);
        assert forall|x: int| 0 <= x < k.tasks.len() implies k.task_ok(x) by {
            assert(self.task_ok(x));
        }
        assert forall|m: int| 0 <= m < k.mutexes.len() implies k.mutex_ok(m) by {
            assert(self.mutex_ok(m));
        }
        assert forall|s: int| 0 <= s < k.semaphores.len() implies k.sem_ok(s) by {
            assert(self.sem_ok(s));
        }
        assert forall|q: int| 0 <= q < k.queues.len() implies k.queue_ok(q) by {
            assert(self.queue_ok(q));
        }
    }

    /// The state right after a running task releases a mutex is well formed, and the
    /// waiter it is handed to (if any) is parked on it and waits on nothing else.
    pub proof fn lemma_unlock_wf(self, tid: usize, m: usize)
        requires
            self.wf(),
            tid < self.tasks.len(),
            m < self.mutexes.len(),
            crate::kernel::model::is_ready(self.tasks[tid as int]),
            self.tasks[tid as int].current_op() == Some(Op::Unlock(m)),
        ensures
            ({
                let t = self.tasks[tid as int];
                let mx = self.mutexes[m as int];
                let (mv, next) = mx.released(tid, crate::kernel::select::ranks_of(mx.waiters, self.eff_table()));
                let k1 = self.set_mutex(m, mv).set_task(
                    tid,
                    TaskView { held_mutexes: crate::kernel::model::without_value(t.held_mutexes, m), ..t }.advanced(),
                ).logged(Event::Unlock { task: tid, mutex: m });
                &&& k1.wf()
                &&& (next matches Some(n) ==> {
                    &&& n < self.tasks.len()
                    &&& n != tid
                    &&& k1.not_waiting(n)
                    &&& waiting_on(k1.tasks[n as int], BlockReason::Mutex(m))
                    &&& k1.tasks[n as int].pc < k1.tasks[n as int].program.len()
                })
            }),
    {
        let t = self.tasks[tid as int];
        let mx = self.mutexes[m as int];
        let prios = crate::kernel::select::ranks_of(mx.waiters, self.eff_table());
        let (mv, next) = mx.released(tid, prios);
        let t1 = TaskView { held_mutexes: crate::kernel::model::without_value(t.held_mutexes, m), ..t }.advanced();
        let k0 = self.set_mutex(m, mv);
        let k1 = k0.set_task(tid, t1).logged(Event::Unlock { task: tid, mutex: m });
        self.lemma_ready_not_waiting(tid);
        assert(self.mutex_ok(m as int));
        assert(self.task_ok(tid as int));
        if mx.owner == Some(tid) && mx.waiters.len() > 0 {
            crate::kernel::select::lemma_choice_exists(mx.waiters, prios);
        }
        // The updated mutex keeps its well-formedness in k0.
        assert forall|x: int| 0 <= x < k0.tasks.len() implies k0.task_ok(x) by {
            assert(self.task_ok(x));
        }
        assert forall|mm: int| 0 <= mm < k0.mutexes.len() implies k0.mutex_ok(mm) by {
            assert(self.mutex_ok(mm));
            if mm == m {
                if mx.owner == Some(tid) && mx.waiters.len() > 0 {
                    let b = crate::kernel::select::choice(mx.waiters, prios);
                    mx.waiters.remove_ensures(b);
                    assert forall|j: int| 0 <= j < mv.waiters.len() implies k0.waiter_ok(
                        mv.waiters[j],
                        BlockReason::Mutex(m),
                    ) by {
                        if j < b {
                            assert(self.waiter_ok(mx.waiters[j], BlockReason::Mutex(m)));
                        } else {
                            assert(self.waiter_ok(mx.waiters[j + 1], BlockReason::Mutex(m)));
                        }
                    }
                    assert(mv.waiters.no_duplicates()) by {
                        assert forall|i: int, j: int|
                            0 <= i < mv.waiters.len() && 0 <= j < mv.waiters.len() && i != j implies mv.waiters[i]
                            != mv.waiters[j] by {
                            let ii = if i < b { i } else { i + 1 };
                            let jj = if j < b { j } else { j + 1 };
                            assert(mv.waiters[i] == mx.waiters[ii]);
                            assert(mv.waiters[j] == mx.waiters[jj]);
                        }
                    }
                    assert(self.waiter_ok(mx.waiters[b], BlockReason::Mutex(m)));
                } else {
                    assert forall|j: int| 0 <= j < mv.waiters.len() implies k0.waiter_ok(
                        mv.waiters[j],
                        BlockReason::Mutex(m),
                    ) by {
                        assert(self.waiter_ok(mx.waiters[j], BlockReason::Mutex(m)));
                    }
                }
            } else {
                assert forall|j: int| 0 <= j < k0.mutexes[mm].waiters.len() implies k0.waiter_ok(
                    k0.mutexes[mm].waiters[j],
                    BlockReason::Mutex(mm as usize),
                ) by {
                    assert(self.waiter_ok(self.mutexes[mm].waiters[j], BlockReason::Mutex(mm as usize)));
                }
            }
        }
        assert forall|s: int| 0 <= s < k0.semaphores.len() implies k0.sem_ok(s) by {
            assert(self.sem_ok(s));
            assert forall|j: int| 0 <= j < k0.semaphores[s].waiters.len() implies k0.waiter_ok(
                k0.semaphores[s].waiters[j],
                BlockReason::Semaphore(s as usize),
            ) by {
                assert(self.waiter_ok(self.semaphores[s].waiters[j], BlockReason::Semaphore(s as usize)));
            }
        }
        assert forall|q: int| 0 <= q < k0.queues.len() implies k0.queue_ok(q) by {
            assert(self.queue_ok(q));
        }
        assert(k0.wf());
        // tid waits on nothing in k0 either.
        assert(k0.not_waiting(tid)) by {
            if mx.owner == Some(tid) && mx.waiters.len() > 0 {
                let b = crate::kernel::select::choice(mx.waiters, prios);
                mx.waiters.remove_ensures(b);
            }
        }
        assert(k0.task_ok_with(tid as int, t1)) by {
            assert forall|j: int| 0 <= j < t1.held_mutexes.len() implies t1.held_mutexes[j] < k0.mutexes.len() by {
                let e = t1.held_mutexes[j];
                assert(t1.held_mutexes.contains(e));
                t.held_mutexes.lemma_filter_contains_rev(crate::kernel::model::differs_from(m), e);
                let jj = choose|jj: int| 0 <= jj < t.held_mutexes.len() && t.held_mutexes[jj] == e;
            }
        }
        k0.lemma_set_task_wf(tid, t1);
        k0.set_task(tid, t1).lemma_wf_logged(Event::Unlock { task: tid, mutex: m });
        if next is Some {
            let n = next.unwrap();
            let b = crate::kernel::select::choice(mx.waiters, prios);
            mx.waiters.remove_ensures(b);
            assert(self.waiter_ok(mx.waiters[b], BlockReason::Mutex(m)));
            assert(n != tid);
            assert(k1.not_waiting(n)) by {
                assert forall|mm: int, j: int|
                    0 <= mm < k1.mutexes.len() && 0 <= j < k1.mutexes[mm].waiters.len() implies k1.mutexes[mm].waiters[j]
                    != n by {
                    if mm == m {
                        assert(k1.mutexes[mm] == mv);
                        assert(mv.waiters == mx.waiters.remove(b));
                        let jj = if j < b { j } else { j + 1 };
                        assert(k1.mutexes[mm].waiters[j] == mx.waiters[jj]);
                        assert(jj != b);
                        assert(mx.waiters.no_duplicates());
                        assert(mx.waiters[b] == n);
                        assert(mx.waiters[jj] != mx.waiters[b]);
                        assert(k1.mutexes[mm].waiters[j] != n);
                    } else {
                        assert(k1.mutexes[mm] == self.mutexes[mm]);
                        assert(self.mutex_ok(mm));
                        assert(self.waiter_ok(self.mutexes[mm].waiters[j], BlockReason::Mutex(mm as usize)));
                        assert(self.tasks[n as int].blocked_on == Some(BlockReason::Mutex(m)));
                        assert(k1.mutexes[mm].waiters[j] != n);
                    }
                }
                assert forall|s: int, j: int|
                    0 <= s < k1.semaphores.len() && 0 <= j < k1.semaphores[s].waiters.len() implies k1.semaphores[s].waiters[j]
                    != n by {
                    assert(self.sem_ok(s));
                    assert(self.waiter_ok(self.semaphores[s].waiters[j], BlockReason::Semaphore(s as usize)));
                }
                assert forall|q: int, j: int|
                    0 <= q < k1.queues.len() && 0 <= j < k1.queues[q].recv_waiters.len() implies k1.queues[q].recv_waiters[j]
                    != n by {
                    assert(self.queue_ok(q));
                }
                assert forall|q: int, j: int|
                    0 <= q < k1.queues.len() && 0 <= j < k1.queues[q].send_waiters.len() implies k1.queues[q].send_waiters[j]
                    != n by {
                    assert(self.queue_ok(q));
                }
            }
        }
    }

    /// Handing a mutex to a waiter that is parked on it keeps the kernel well formed.
    pub proof fn lemma_handoff_wf(self, n: usize, m: usize)
        requires
            self.wf(),
            n < self.tasks.len(),
            m < self.mutexes.len(),
            self.not_waiting(n),
            waiting_on(self.tasks[n as int], BlockReason::Mutex(m)),
            self.tasks[n as int].pc < self.tasks[n as int].program.len(),
        ensures
            ({
                let tn = self.tasks[n as int];
                self.set_task(n, TaskView { held_mutexes: tn.held_mutexes.push(m), ..tn }.woken_up().advanced()).logged(
                    Event::Lock { task: n, mutex: m },
                ).wf()
            }),
            self.tasks[n as int].pc < self.tasks[n as int].program.len(),
    {
        let tn = self.tasks[n as int];
        let t2 = TaskView { held_mutexes: tn.held_mutexes.push(m), ..tn }.woken_up().advanced();
        assert(self.task_ok(n as int));
        assert(self.task_ok_with(n as int, t2));
        self.lemma_set_task_wf(n, t2);
        self.set_task(n, t2).lemma_wf_logged(Event::Lock { task: n, mutex: m });
    }

    /// A task that waits on `reason` is not ready and occurs in no other waiter list
    /// than the one `reason` names.
    pub proof fn lemma_waiter_elsewhere(self, w: usize, reason: BlockReason)
        requires
            self.wf(),
            w < self.tasks.len(),
            self.tasks[w as int].blocked_on == Some(reason),
        ensures
            forall|m: int, j: int|
                0 <= m < self.mutexes.len() && 0 <= j < self.mutexes[m].waiters.len() && reason
                    != BlockReason::Mutex(m as usize) ==> self.mutexes[m].waiters[j] != w,
            forall|s: int, j: int|
                0 <= s < self.semaphores.len() && 0 <= j < self.semaphores[s].waiters.len() && reason
                    != BlockReason::Semaphore(s as usize) ==> self.semaphores[s].waiters[j] != w,
            forall|q: int, j: int|
                0 <= q < self.queues.len() && 0 <= j < self.queues[q].recv_waiters.len() && reason
                    != BlockReason::QueueRecv(q as usize) ==> self.queues[q].recv_waiters[j] != w,
            forall|q: int, j: int|
                0 <= q < self.queues.len() && 0 <= j < self.queues[q].send_waiters.len() && reason
                    != BlockReason::QueueSend(q as usize) ==> self.queues[q].send_waiters[j] != w,
    {
        assert forall|m: int, j: int|
            0 <= m < self.mutexes.len() && 0 <= j < self.mutexes[m].waiters.len() && reason != BlockReason::Mutex(
                m as usize,
            ) implies self.mutexes[m].waiters[j] != w by {
            assert(self.mutex_ok(m));
            assert(self.waiter_ok(self.mutexes[m].waiters[j], BlockReason::Mutex(m as usize)));
        }
        assert forall|s: int, j: int|
            0 <= s < self.semaphores.len() && 0 <= j < self.semaphores[s].waiters.len() && reason
                != BlockReason::Semaphore(s as usize) implies self.semaphores[s].waiters[j] != w by {
            assert(self.sem_ok(s));
            assert(self.waiter_ok(self.semaphores[s].waiters[j], BlockReason::Semaphore(s as usize)));
        }
        assert forall|q: int, j: int|
            0 <= q < self.queues.len() && 0 <= j < self.queues[q].recv_waiters.len() && reason
                != BlockReason::QueueRecv(q as usize) implies self.queues[q].recv_waiters[j] != w by {
            assert(self.queue_ok(q));
        }
        assert forall|q: int, j: int|
            0 <= q < self.queues.len() && 0 <= j < self.queues[q].send_waiters.len() && reason
                != BlockReason::QueueSend(q as usize) implies self.queues[q].send_waiters[j] != w by {
            assert(self.queue_ok(q));
        }
    }

    /// Signalling a semaphore from a running task keeps the kernel well formed.
    pub proof fn lemma_sem_signal_wf(self, tid: usize, s: usize)
        requires
            self.wf(),
            tid < self.tasks.len(),
            s < self.semaphores.len(),
            crate::kernel::model::is_ready(self.tasks[tid as int]),
            self.tasks[tid as int].current_op() == Some(Op::SemSignal(s)),
        ensures
            self.op_sem_signal(tid, s).wf(),
            self.op_sem_signal(tid, s).tasks.len() == self.tasks.len(),
            self.op_sem_signal(tid, s).tasks[tid as int] == self.tasks[tid as int].advanced(),
            forall|j: int|
                0 <= j < self.semaphores[s as int].waiters.len() ==> self.semaphores[s as int].waiters[j]
                    < self.tasks.len(),
            ({
                let sv = self.semaphores[s as int];
                let (sv2, woken) = sv.signaled(crate::kernel::select::ranks_of(sv.waiters, self.eff_table()));
                woken matches Some(w) ==> w < self.tasks.len() && w != tid && self.tasks[w as int].pc
                    < self.tasks[w as int].program.len()
            }),
    {
        let sv = self.semaphores[s as int];
        let prios = crate::kernel::select::ranks_of(sv.waiters, self.eff_table());
        let (sv2, woken) = sv.signaled(prios);
        let t1 = self.tasks[tid as int].advanced();
        let k0 = self.set_semaphore(s, sv2);
        let k1 = k0.set_task(tid, t1).logged(Event::SemSignal { task: tid, sem: s });
        self.lemma_ready_not_waiting(tid);
        assert(self.sem_ok(s as int));
        assert(self.task_ok(tid as int));
        assert forall|j: int| 0 <= j < sv.waiters.len() implies sv.waiters[j] < self.tasks.len() by {
            assert(self.waiter_ok(sv.waiters[j], BlockReason::Semaphore(s)));
        }
        if sv.waiters.len() > 0 {
            crate::kernel::select::lemma_choice_exists(sv.waiters, prios);
            let b = crate::kernel::select::choice(sv.waiters, prios);
            sv.waiters.remove_ensures(b);
            assert(self.waiter_ok(sv.waiters[b], BlockReason::Semaphore(s)));
        }
        assert forall|x: int| 0 <= x < k0.tasks.len() implies k0.task_ok(x) by {
            assert(self.task_ok(x));
        }
        assert forall|mm: int| 0 <= mm < k0.mutexes.len() implies k0.mutex_ok(mm) by {
            assert(self.mutex_ok(mm));
            assert forall|j: int| 0 <= j < k0.mutexes[mm].waiters.len() implies k0.waiter_ok(
                k0.mutexes[mm].waiters[j],
                BlockReason::Mutex(mm as usize),
            ) by {
                assert(self.waiter_ok(self.mutexes[mm].waiters[j], BlockReason::Mutex(mm as usize)));
            }
        }
        assert forall|ss: int| 0 <= ss < k0.semaphores.len() implies k0.sem_ok(ss) by {
            assert(self.sem_ok(ss));
            if ss == s {
                if sv.waiters.len() > 0 {
                    let b = crate::kernel::select::choice(sv.waiters, prios);
                    assert forall|j: int| 0 <= j < sv2.waiters.len() implies k0.waiter_ok(
                        sv2.waiters[j],
                        BlockReason::Semaphore(s),
                    ) by {
                        if j < b {
                            assert(self.waiter_ok(sv.waiters[j], BlockReason::Semaphore(s)));
                        } else {
                            assert(self.waiter_ok(sv.waiters[j + 1], BlockReason::Semaphore(s)));
                        }
                    }
                    assert(sv2.waiters.no_duplicates()) by {
                        assert forall|i: int, j: int|
                            0 <= i < sv2.waiters.len() && 0 <= j < sv2.waiters.len() && i != j implies sv2.waiters[i]
                            != sv2.waiters[j] by {
                            let ii = if i < b { i } else { i + 1 };
                            let jj = if j < b { j } else { j + 1 };
                            assert(sv2.waiters[i] == sv.waiters[ii]);
                            assert(sv2.waiters[j] == sv.waiters[jj]);
                        }
                    }
                } else {
                    assert(sv2.waiters == sv.waiters);
                }
            } else {
                assert forall|j: int| 0 <= j < k0.semaphores[ss].waiters.len() implies k0.waiter_ok(
                    k0.semaphores[ss].waiters[j],
                    BlockReason::Semaphore(ss as usize),
                ) by {
                    assert(self.waiter_ok(self.semaphores[ss].waiters[j], BlockReason::Semaphore(ss as usize)));
                }
            }
        }
        assert forall|q: int| 0 <= q < k0.queues.len() implies k0.queue_ok(q) by {
            assert(self.queue_ok(q));
        }
        assert(k0.wf());
        assert(k0.not_waiting(tid)) by {
            if sv.waiters.len() > 0 {
                let b = crate::kernel::select::choice(sv.waiters, prios);
                assert forall|j: int| 0 <= j < sv2.waiters.len() implies sv2.waiters[j] != tid by {
                    let jj = if j < b { j } else { j + 1 };
                    assert(sv2.waiters[j] == sv.waiters[jj]);
                }
            }
        }
        k0.lemma_set_task_wf(tid, t1);
        k0.set_task(tid, t1).lemma_wf_logged(Event::SemSignal { task: tid, sem: s });
        match woken {
            Some(w) => {
                let b = crate::kernel::select::choice(sv.waiters, prios);
                assert(w == sv.waiters[b]);
                assert(waiting_on(self.tasks[w as int], BlockReason::Semaphore(s)));
                self.lemma_waiter_elsewhere(w, BlockReason::Semaphore(s));
                assert(k1.not_waiting(w)) by {
                    assert forall|ss: int, j: int|
                        0 <= ss < k1.semaphores.len() && 0 <= j < k1.semaphores[ss].waiters.len() implies k1.semaphores[ss].waiters[j]
                        != w by {
                        if ss == s {
                            let jj = if j < b { j } else { j + 1 };
                            assert(k1.semaphores[ss].waiters[j] == sv.waiters[jj]);
                            assert(sv.waiters[jj] != sv.waiters[b]);
                        } else {
                            assert(k1.semaphores[ss] == self.semaphores[ss]);
                        }
                    }
                }
                let tw = k1.tasks[w as int];
                assert(tw == self.tasks[w as int]);
                assert(self.task_ok(w as int));
                assert(k1.task_ok_with(w as int, tw.woken_up().advanced()));
                k1.lemma_set_task_wf(w, tw.woken_up().advanced());
                k1.set_task(w, tw.woken_up().advanced()).lemma_wf_logged(Event::SemWait { task: w, sem: s });
            },
            None => {},
        }
    }

    /// A running task's send on a queue keeps the kernel well formed.
    pub proof fn lemma_queue_send_wf(self, tid: usize, q: usize, value: u32)
        requires
            self.wf(),
            tid < self.tasks.len(),
            q < self.queues.len(),
            crate::kernel::model::is_ready(self.tasks[tid as int]),
            self.tasks[tid as int].current_op() == Some(Op::QueueSend(q, value)),
        ensures
            self.op_queue_send(tid, q, value).0.wf(),
            self.op_queue_send(tid, q, value).0.tasks.len() == self.tasks.len(),
            self.op_queue_send(tid, q, value).1 ==> self.op_queue_send(tid, q, value).0.tasks[tid as int]
                == self.tasks[tid as int].advanced(),
            forall|j: int|
                0 <= j < self.queues[q as int].recv_waiters.len() ==> self.queues[q as int].recv_waiters[j]
                    < self.tasks.len(),
    {
        let qv = self.queues[q as int];
        self.lemma_ready_not_waiting(tid);
        assert(self.queue_ok(q as int));
        assert(self.task_ok(tid as int));
        let (qv1, ok) = qv.after_send(value);
        if ok {
            let t1 = self.tasks[tid as int].advanced();
            let k0 = self.set_queue(q, qv1);
            assert forall|x: int| 0 <= x < k0.tasks.len() implies k0.task_ok(x) by {
                assert(self.task_ok(x));
            }
            assert forall|mm: int| 0 <= mm < k0.mutexes.len() implies k0.mutex_ok(mm) by {
                assert(self.mutex_ok(mm));
                assert forall|j: int| 0 <= j < k0.mutexes[mm].waiters.len() implies k0.waiter_ok(
                    k0.mutexes[mm].waiters[j],
                    BlockReason::Mutex(mm as usize),
                ) by {
                    assert(self.waiter_ok(self.mutexes[mm].waiters[j], BlockReason::Mutex(mm as usize)));
                }
            }
            assert forall|ss: int| 0 <= ss < k0.semaphores.len() implies k0.sem_ok(ss) by {
                assert(self.sem_ok(ss));
                assert forall|j: int| 0 <= j < k0.semaphores[ss].waiters.len() implies k0.waiter_ok(
                    k0.semaphores[ss].waiters[j],
                    BlockReason::Semaphore(ss as usize),
                ) by {
                    assert(self.waiter_ok(self.semaphores[ss].waiters[j], BlockReason::Semaphore(ss as usize)));
                }
            }
            assert forall|qq: int| 0 <= qq < k0.queues.len() implies k0.queue_ok(qq) by {
                assert(self.queue_ok(qq));
            }
            assert(k0.wf());
            k0.lemma_set_task_wf(tid, t1);
            let e = Event::QueueSend { task: tid, queue: q, value };
            k0.set_task(tid, t1).lemma_wf_logged(e);
            let k1 = k0.set_task(tid, t1).logged(e);
            let prios = crate::kernel::select::ranks_of(qv1.recv_waiters, k1.eff_table());
            let (qv2, r) = qv1.after_wake_receiver(prios);
            let k2 = k1.set_queue(q, qv2);
            if qv1.recv_waiters.len() > 0 {
                crate::kernel::select::lemma_choice_exists(qv1.recv_waiters, prios);
                let b = crate::kernel::select::choice(qv1.recv_waiters, prios);
                qv1.recv_waiters.remove_ensures(b);
                assert(k1.queue_ok(q as int));
                let w = qv1.recv_waiters[b];
                assert(waiting_on(k1.tasks[w as int], BlockReason::QueueRecv(q)));
                assert(qv2.recv_waiters.no_duplicates()) by {
                    assert forall|i: int, j: int|
                        0 <= i < qv2.recv_waiters.len() && 0 <= j < qv2.recv_waiters.len() && i != j implies qv2.recv_waiters[i]
                        != qv2.recv_waiters[j] by {
                        let ii = if i < b { i } else { i + 1 };
                        let jj = if j < b { j } else { j + 1 };
                        assert(qv2.recv_waiters[i] == qv1.recv_waiters[ii]);
                        assert(qv2.recv_waiters[j] == qv1.recv_waiters[jj]);
                    }
                }
                assert forall|qq: int| 0 <= qq < k2.queues.len() implies k2.queue_ok(qq) by {
                    assert(k1.queue_ok(qq));
                    if qq == q {
                        assert forall|j: int| 0 <= j < qv2.recv_waiters.len() implies qv2.recv_waiters[j] < k2.tasks.len()
                            && waiting_on(k2.tasks[qv2.recv_waiters[j] as int], BlockReason::QueueRecv(q)) by {
                            let jj = if j < b { j } else { j + 1 };
                            assert(qv2.recv_waiters[j] == qv1.recv_waiters[jj]);
                        }
                    }
                }
                assert forall|x: int| 0 <= x < k2.tasks.len() implies k2.task_ok(x) by {
                    assert(k1.task_ok(x));
                }
                assert forall|mm: int| 0 <= mm < k2.mutexes.len() implies k2.mutex_ok(mm) by {
                    assert(k1.mutex_ok(mm));
                }
                assert forall|ss: int| 0 <= ss < k2.semaphores.len() implies k2.sem_ok(ss) by {
                    assert(k1.sem_ok(ss));
                }
                assert(k2.wf());
                k1.lemma_waiter_elsewhere(w, BlockReason::QueueRecv(q));
                assert(k2.not_waiting(w)) by {
                    assert forall|qq: int, j: int|
                        0 <= qq < k2.queues.len() && 0 <= j < k2.queues[qq].recv_waiters.len() implies k2.queues[qq].recv_waiters[j]
                        != w by {
                        if qq == q {
                            let jj = if j < b { j } else { j + 1 };
                            assert(k2.queues[qq].recv_waiters[j] == qv1.recv_waiters[jj]);
                            assert(qv1.recv_waiters[jj] != qv1.recv_waiters[b]);
                        } else {
                            assert(k2.queues[qq] == k1.queues[qq]);
                        }
                    }
                    assert forall|qq: int, j: int|
                        0 <= qq < k2.queues.len() && 0 <= j < k2.queues[qq].send_waiters.len() implies k2.queues[qq].send_waiters[j]
                        != w by {
                        assert(k2.queues[qq].send_waiters == k1.queues[qq].send_waiters);
                    }
                }
                assert(k1.task_ok(w as int));
                assert(w != tid);
                assert(k2.task_ok_with(w as int, k2.tasks[w as int].woken_up()));
                k2.lemma_set_task_wf(w, k2.tasks[w as int].woken_up());
            } else {
                assert(qv2 == qv1);
                assert(k2.queues =~= k1.queues);
            }
        } else {
            let qv1 = QueueView { send_waiters: qv.send_waiters.push(tid), ..qv };
            let k0 = self.set_queue(q, qv1);
            let t1 = self.tasks[tid as int].parked(BlockReason::QueueSend(q));
            let k1 = k0.set_task(tid, t1).idle_cpu();
            assert(!qv.send_waiters.contains(tid));
            assert forall|x: int| 0 <= x < k1.tasks.len() implies k1.task_ok(x) by {
                assert(self.task_ok(x));
            }
            assert forall|mm: int| 0 <= mm < k1.mutexes.len() implies k1.mutex_ok(mm) by {
                assert(self.mutex_ok(mm));
                assert forall|j: int| 0 <= j < k1.mutexes[mm].waiters.len() implies k1.waiter_ok(
                    k1.mutexes[mm].waiters[j],
                    BlockReason::Mutex(mm as usize),
                ) by {
                    assert(self.waiter_ok(self.mutexes[mm].waiters[j], BlockReason::Mutex(mm as usize)));
                }
            }
            assert forall|ss: int| 0 <= ss < k1.semaphores.len() implies k1.sem_ok(ss) by {
                assert(self.sem_ok(ss));
                assert forall|j: int| 0 <= j < k1.semaphores[ss].waiters.len() implies k1.waiter_ok(
                    k1.semaphores[ss].waiters[j],
                    BlockReason::Semaphore(ss as usize),
                ) by {
                    assert(self.waiter_ok(self.semaphores[ss].waiters[j], BlockReason::Semaphore(ss as usize)));
                }
            }
            assert forall|qq: int| 0 <= qq < k1.queues.len() implies k1.queue_ok(qq) by {
                assert(self.queue_ok(qq));
                if qq == q {
                    assert forall|j: int| 0 <= j < qv1.send_waiters.len() implies qv1.send_waiters[j] < k1.tasks.len()
                        && waiting_on(k1.tasks[qv1.send_waiters[j] as int], BlockReason::QueueSend(q)) by {
                        if j < qv.send_waiters.len() {
                            assert(qv1.send_waiters[j] == qv.send_waiters[j]);
                        }
                    }
                }
            }
            assert(k1.wf());
            k1.lemma_wf_logged(Event::QueueBlock { task: tid, queue: q });
        }
    }

    /// A running task's receive on a queue keeps the kernel well formed.
    pub proof fn lemma_queue_recv_wf(self, tid: usize, q: usize)
        requires
            self.wf(),
            tid < self.tasks.len(),
            q < self.queues.len(),
            crate::kernel::model::is_ready(self.tasks[tid as int]),
            self.tasks[tid as int].current_op() == Some(Op::QueueRecv(q)),
        ensures
            self.op_queue_recv(tid, q).0.wf(),
            self.op_queue_recv(tid, q).0.tasks.len() == self.tasks.len(),
            self.op_queue_recv(tid, q).1 ==> self.op_queue_recv(tid, q).0.tasks[tid as int]
                == self.tasks[tid as int].advanced(),
            forall|j: int|
                0 <= j < self.queues[q as int].send_waiters.len() ==> self.queues[q as int].send_waiters[j]
                    < self.tasks.len(),
    {
        let qv = self.queues[q as int];
        self.lemma_ready_not_waiting(tid);
        assert(self.queue_ok(q as int));
        assert(self.task_ok(tid as int));
        let (qv1, ok) = qv.after_recv();
        if ok is Some {
            let t1 = self.tasks[tid as int].advanced();
            let k0 = self.set_queue(q, qv1);
            assert forall|x: int| 0 <= x < k0.tasks.len() implies k0.task_ok(x) by {
                assert(self.task_ok(x));
            }
            assert forall|mm: int| 0 <= mm < k0.mutexes.len() implies k0.mutex_ok(mm) by {
                assert(self.mutex_ok(mm));
                assert forall|j: int| 0 <= j < k0.mutexes[mm].waiters.len() implies k0.waiter_ok(
                    k0.mutexes[mm].waiters[j],
                    BlockReason::Mutex(mm as usize),
                ) by {
                    assert(self.waiter_ok(self.mutexes[mm].waiters[j], BlockReason::Mutex(mm as usize)));
                }
            }
            assert forall|ss: int| 0 <= ss < k0.semaphores.len() implies k0.sem_ok(ss) by {
                assert(self.sem_ok(ss));
                assert forall|j: int| 0 <= j < k0.semaphores[ss].waiters.len() implies k0.waiter_ok(
                    k0.semaphores[ss].waiters[j],
                    BlockReason::Semaphore(ss as usize),
                ) by {
                    assert(self.waiter_ok(self.semaphores[ss].waiters[j], BlockReason::Semaphore(ss as usize)));
                }
            }
            assert forall|qq: int| 0 <= qq < k0.queues.len() implies k0.queue_ok(qq) by {
                assert(self.queue_ok(qq));
            }
            assert(k0.wf());
            k0.lemma_set_task_wf(tid, t1);
            let e = Event::QueueRecv { task: tid, queue: q, value: ok.unwrap() };
            k0.set_task(tid, t1).lemma_wf_logged(e);
            let k1 = k0.set_task(tid, t1).logged(e);
            let prios = crate::kernel::select::ranks_of(qv1.send_waiters, k1.eff_table());
            let (qv2, r) = qv1.after_wake_sender(prios);
            let k2 = k1.set_queue(q, qv2);
            if qv1.send_waiters.len() > 0 {
                crate::kernel::select::lemma_choice_exists(qv1.send_waiters, prios);
                let b = crate::kernel::select::choice(qv1.send_waiters, prios);
                qv1.send_waiters.remove_ensures(b);
                assert(k1.queue_ok(q as int));
                let w = qv1.send_waiters[b];
                assert(waiting_on(k1.tasks[w as int], BlockReason::QueueSend(q)));
                assert(qv2.send_waiters.no_duplicates()) by {
                    assert forall|i: int, j: int|
                        0 <= i < qv2.send_waiters.len() && 0 <= j < qv2.send_waiters.len() && i != j implies qv2.send_waiters[i]
                        != qv2.send_waiters[j] by {
                        let ii = if i < b { i } else { i + 1 };
                        let jj = if j < b { j } else { j + 1 };
                        assert(qv2.send_waiters[i] == qv1.send_waiters[ii]);
                        assert(qv2.send_waiters[j] == qv1.send_waiters[jj]);
                    }
                }
                assert forall|qq: int| 0 <= qq < k2.queues.len() implies k2.queue_ok(qq) by {
                    assert(k1.queue_ok(qq));
                    if qq == q {
                        assert forall|j: int| 0 <= j < qv2.send_waiters.len() implies qv2.send_waiters[j] < k2.tasks.len()
                            && waiting_on(k2.tasks[qv2.send_waiters[j] as int], BlockReason::QueueSend(q)) by {
                            let jj = if j < b { j } else { j + 1 };
                            assert(qv2.send_waiters[j] == qv1.send_waiters[jj]);
                        }
                    }
                }
                assert forall|x: int| 0 <= x < k2.tasks.len() implies k2.task_ok(x) by {
                    assert(k1.task_ok(x));
                }
                assert forall|mm: int| 0 <= mm < k2.mutexes.len() implies k2.mutex_ok(mm) by {
                    assert(k1.mutex_ok(mm));
                }
                assert forall|ss: int| 0 <= ss < k2.semaphores.len() implies k2.sem_ok(ss) by {
                    assert(k1.sem_ok(ss));
                }
                assert(k2.wf());
                k1.lemma_waiter_elsewhere(w, BlockReason::QueueSend(q));
                assert(k2.not_waiting(w)) by {
                    assert forall|qq: int, j: int|
                        0 <= qq < k2.queues.len() && 0 <= j < k2.queues[qq].send_waiters.len() implies k2.queues[qq].send_waiters[j]
                        != w by {
                        if qq == q {
                            let jj = if j < b { j } else { j + 1 };
                            assert(k2.queues[qq].send_waiters[j] == qv1.send_waiters[jj]);
                            assert(qv1.send_waiters[jj] != qv1.send_waiters[b]);
                        } else {
                            assert(k2.queues[qq] == k1.queues[qq]);
                        }
                    }
                    assert forall|qq: int, j: int|
                        0 <= qq < k2.queues.len() && 0 <= j < k2.queues[qq].recv_waiters.len() implies k2.queues[qq].recv_waiters[j]
                        != w by {
                        assert(k2.queues[qq].recv_waiters == k1.queues[qq].recv_waiters);
                    }
                }
                assert(k1.task_ok(w as int));
                assert(w != tid);
                assert(k2.task_ok_with(w as int, k2.tasks[w as int].woken_up()));
                k2.lemma_set_task_wf(w, k2.tasks[w as int].woken_up());
            } else {
                assert(qv2 == qv1);
                assert(k2.queues =~= k1.queues);
            }
        } else {
            let qv1 = QueueView { recv_waiters: qv.recv_waiters.push(tid), ..qv };
            let k0 = self.set_queue(q, qv1);
            let t1 = self.tasks[tid as int].parked(BlockReason::QueueRecv(q));
            let k1 = k0.set_task(tid, t1).idle_cpu();
            assert(!qv.recv_waiters.contains(tid));
            assert forall|x: int| 0 <= x < k1.tasks.len() implies k1.task_ok(x) by {
                assert(self.task_ok(x));
            }
            assert forall|mm: int| 0 <= mm < k1.mutexes.len() implies k1.mutex_ok(mm) by {
                assert(self.mutex_ok(mm));
                assert forall|j: int| 0 <= j < k1.mutexes[mm].waiters.len() implies k1.waiter_ok(
                    k1.mutexes[mm].waiters[j],
                    BlockReason::Mutex(mm as usize),
                ) by {
                    assert(self.waiter_ok(self.mutexes[mm].waiters[j], BlockReason::Mutex(mm as usize)));
                }
            }
            assert forall|ss: int| 0 <= ss < k1.semaphores.len() implies k1.sem_ok(ss) by {
                assert(self.sem_ok(ss));
                assert forall|j: int| 0 <= j < k1.semaphores[ss].waiters.len() implies k1.waiter_ok(
                    k1.semaphores[ss].waiters[j],
                    BlockReason::Semaphore(ss as usize),
                ) by {
                    assert(self.waiter_ok(self.semaphores[ss].waiters[j], BlockReason::Semaphore(ss as usize)));
                }
            }
            assert forall|qq: int| 0 <= qq < k1.queues.len() implies k1.queue_ok(qq) by {
                assert(self.queue_ok(qq));
                if qq == q {
                    assert forall|j: int| 0 <= j < qv1.recv_waiters.len() implies qv1.recv_waiters[j] < k1.tasks.len()
                        && waiting_on(k1.tasks[qv1.recv_waiters[j] as int], BlockReason::QueueRecv(q)) by {
                        if j < qv.recv_waiters.len() {
                            assert(qv1.recv_waiters[j] == qv.recv_waiters[j]);
                        }
                    }
                }
            }
            assert(k1.wf());
            k1.lemma_wf_logged(Event::QueueBlock { task: tid, queue: q });
        }
    }

    /// Changing the chip's peripherals keeps the kernel well formed.
    pub proof fn lemma_wf_mcu(self, m: crate::mcu::McuView)
        requires
            self.wf(),
            m.wf(),
        ensures
            (KernelView { mcu: m, ..self }).wf(),
    {
        let k = KernelView { mcu: m, ..self };
        assert forall|x: int| 0 <= x < k.tasks.len() implies k.task_ok(x) by {
            assert(self.task_ok(x));
        }
        assert forall|mm: int| 0 <= mm < k.mutexes.len() implies k.mutex_ok(mm) by {
            assert(self.mutex_ok(mm));
        }
        assert forall|ss: int| 0 <= ss < k.semaphores.len() implies k.sem_ok(ss) by {
            assert(self.sem_ok(ss));
        }
        assert forall|qq: int| 0 <= qq < k.queues.len() implies k.queue_ok(qq) by {
            assert(self.queue_ok(qq));
        }
    }

    /// Freeing the CPU keeps the kernel well formed.
    pub proof fn lemma_wf_idle(self)
        requires
            self.wf(),
        ensures
            self.idle_cpu().wf(),
    {
        let k = self.idle_cpu();
        assert forall|x: int| 0 <= x < k.tasks.len() implies k.task_ok(x) by {
            assert(self.task_ok(x));
        }
        assert forall|mm: int| 0 <= mm < k.mutexes.len() implies k.mutex_ok(mm) by {
            assert(self.mutex_ok(mm));
        }
        assert forall|ss: int| 0 <= ss < k.semaphores.len() implies k.sem_ok(ss) by {
            assert(self.sem_ok(ss));
        }
        assert forall|qq: int| 0 <= qq < k.queues.len() implies k.queue_ok(qq) by {
            assert(self.queue_ok(qq));
        }
    }

    /// Completing the running task's job keeps the kernel well formed.
    pub proof fn lemma_completed_wf(self, tid: usize)
        requires
            self.wf(),
            tid < self.tasks.len(),
            crate::kernel::model::is_ready(self.tasks[tid as int]),
        ensures
            self.completed(tid).wf(),
    {
        self.lemma_ready_not_waiting(tid);
        assert(self.task_ok(tid as int));
        let t2 = self.tasks[tid as int].finished();
        assert(self.task_ok_with(tid as int, t2));
        self.lemma_set_task_wf(tid, t2);
        self.set_task(tid, t2).lemma_wf_idle();
        self.set_task(tid, t2).idle_cpu().lemma_wf_logged(Event::Complete { task: tid });
    }

    /// Waiting on a semaphore from a running task keeps the kernel well formed.
    pub proof fn lemma_sem_wait_wf(self, tid: usize, s: usize)
        requires
            self.wf(),
            tid < self.tasks.len(),
            s < self.semaphores.len(),
            crate::kernel::model::is_ready(self.tasks[tid as int]),
            self.tasks[tid as int].current_op() == Some(Op::SemWait(s)),
        ensures
            self.op_sem_wait(tid, s).0.wf(),
    {
        let sv = self.semaphores[s as int];
        self.lemma_ready_not_waiting(tid);
        assert(self.sem_ok(s as int));
        assert(self.task_ok(tid as int));
        let sv1 = if sv.count > 0 { sv.taken() } else { sv.with_waiter(tid) };
        let t1 = if sv.count > 0 {
            self.tasks[tid as int].advanced()
        } else {
            self.tasks[tid as int].parked(BlockReason::Semaphore(s))
        };
        let k0 = self.set_semaphore(s, sv1);
        let k1 = k0.set_task(tid, t1);
        assert(!sv.waiters.contains(tid));
        assert forall|x: int| 0 <= x < k1.tasks.len() implies k1.task_ok(x) by {
            assert(self.task_ok(x));
        }
        assert forall|mm: int| 0 <= mm < k1.mutexes.len() implies k1.mutex_ok(mm) by {
            assert(self.mutex_ok(mm));
            assert forall|j: int| 0 <= j < k1.mutexes[mm].waiters.len() implies k1.waiter_ok(
                k1.mutexes[mm].waiters[j],
                BlockReason::Mutex(mm as usize),
            ) by {
                assert(self.waiter_ok(self.mutexes[mm].waiters[j], BlockReason::Mutex(mm as usize)));
            }
        }
        assert forall|ss: int| 0 <= ss < k1.semaphores.len() implies k1.sem_ok(ss) by {
            assert(self.sem_ok(ss));
            assert forall|j: int| 0 <= j < k1.semaphores[ss].waiters.len() implies k1.waiter_ok(
                k1.semaphores[ss].waiters[j],
                BlockReason::Semaphore(ss as usize),
            ) by {
                if ss == s && j == sv.waiters.len() && sv.count == 0 {
                } else {
                    assert(self.waiter_ok(self.semaphores[ss].waiters[j], BlockReason::Semaphore(ss as usize)));
                }
            }
        }
        assert forall|qq: int| 0 <= qq < k1.queues.len() implies k1.queue_ok(qq) by {
            assert(self.queue_ok(qq));
        }
        assert(k1.wf());
        if sv.count > 0 {
            k1.lemma_wf_logged(Event::SemWait { task: tid, sem: s });
        } else {
            k1.lemma_wf_idle();
            k1.idle_cpu().lemma_wf_logged(Event::SemBlock { task: tid, sem: s });
        }
    }

    /// One iteration of a running task's quantum keeps the kernel well formed, and an
    /// iteration that goes on moves the task forward and leaves it running.
    pub proof fn lemma_op_step(self, tid: usize)
        requires
            self.wf(),
            tid < self.tasks.len(),
            crate::kernel::model::is_ready(self.tasks[tid as int]),
        ensures
            self.op_step(tid).0.wf(),
            self.op_step(tid).1 ==> self.makes_progress(self.op_step(tid).0, tid)
                && self.op_step(tid).0.tasks[tid as int].state == self.tasks[tid as int].state,
    {
        let t = self.tasks[tid as int];
        assert(self.task_ok(tid as int));
        self.lemma_ready_not_waiting(tid);
        match t.current_op() {
            None => {
                self.lemma_completed_wf(tid);
            },
            Some(op) => {
                assert(op_valid_at(self, t, t.pc as int));
                match op {
                    Op::Compute(n) => {
                        let cr = if t.compute_remaining == 0 { n } else { t.compute_remaining };
                        if cr == 0 {
                            let t1 = TaskView { compute_remaining: 0, ..t }.advanced();
                            self.lemma_set_task_wf(tid, t1);
                        } else {
                            let t2 = TaskView {
                                compute_remaining: (cr - 1) as u64,
                                cpu_ticks: (t.cpu_ticks + 1) as u64,
                                ..t
                            };
                            if cr == 1 {
                                let t3 = t2.advanced();
                                self.lemma_set_task_wf(tid, t3);
                                if t3.pc >= t3.program.len() {
                                    self.set_task(tid, t3).lemma_completed_wf(tid);
                                }
                            } else {
                                self.lemma_set_task_wf(tid, t2);
                            }
                        }
                    },
                    Op::Delay(n) => {
                        let t1 = t.advanced();
                        if n == 0 {
                            self.lemma_set_task_wf(tid, t1);
                        } else {
                            let until = (self.now + n) as u64;
                            let t2 = TaskView { wake_at: until, ..t1.parked(BlockReason::Sleep) };
                            self.lemma_set_task_wf(tid, t2);
                            self.set_task(tid, t2).lemma_wf_idle();
                            self.set_task(tid, t2).idle_cpu().lemma_wf_logged(Event::Sleep { task: tid, until });
                        }
                    },
                    Op::GpioSet(pin, level) => {
                        let k0 = KernelView {
                            mcu: crate::mcu::McuView {
                                gpio: crate::mcu::gpio::pins_after_set(self.mcu.gpio, pin, level),
                                ..self.mcu
                            },
                            ..self
                        };
                        self.lemma_wf_mcu(k0.mcu);
                        k0.lemma_set_task_wf(tid, t.advanced());
                        k0.set_task(tid, t.advanced()).lemma_wf_logged(Event::Gpio { task: tid, pin, level });
                    },
                    Op::GpioToggle(pin) => {
                        let pins = crate::mcu::gpio::pins_after_toggle(self.mcu.gpio, pin);
                        let level = match crate::mcu::gpio::pin_level(pins, pin) {
                            Some(l) => l,
                            None => false,
                        };
                        let k0 = KernelView { mcu: crate::mcu::McuView { gpio: pins, ..self.mcu }, ..self };
                        self.lemma_wf_mcu(k0.mcu);
                        k0.lemma_set_task_wf(tid, t.advanced());
                        k0.set_task(tid, t.advanced()).lemma_wf_logged(Event::Gpio { task: tid, pin, level });
                    },
                    Op::Uart(text) => {
                        let k0 = KernelView {
                            mcu: crate::mcu::McuView { uart: self.mcu.uart.sent(text@), ..self.mcu },
                            ..self
                        };
                        self.lemma_wf_mcu(k0.mcu);
                        k0.lemma_set_task_wf(tid, t.advanced());
                        k0.set_task(tid, t.advanced()).lemma_wf_logged(Event::Uart { task: tid, text });
                    },
                    Op::Lock(m) => {
                        let mx = self.mutexes[m as int];
                        match mx.owner {
                            None => {
                                let k0 = self.set_mutex(m, mx.acquired(tid));
                                let t1 = TaskView { held_mutexes: t.held_mutexes.push(m), ..t }.advanced();
                                assert forall|x: int| 0 <= x < k0.tasks.len() implies k0.task_ok(x) by {
                                    assert(self.task_ok(x));
                                }
                                assert forall|mm: int| 0 <= mm < k0.mutexes.len() implies k0.mutex_ok(mm) by {
                                    assert(self.mutex_ok(mm));
                                    assert forall|j: int| 0 <= j < k0.mutexes[mm].waiters.len() implies k0.waiter_ok(
                                        k0.mutexes[mm].waiters[j],
                                        BlockReason::Mutex(mm as usize),
                                    ) by {
                                        assert(self.waiter_ok(
                                            self.mutexes[mm].waiters[j],
                                            BlockReason::Mutex(mm as usize),
                                        ));
                                    }
                                }
                                assert forall|ss: int| 0 <= ss < k0.semaphores.len() implies k0.sem_ok(ss) by {
                                    assert(self.sem_ok(ss));
                                }
                                assert forall|qq: int| 0 <= qq < k0.queues.len() implies k0.queue_ok(qq) by {
                                    assert(self.queue_ok(qq));
                                }
                                k0.lemma_set_task_wf(tid, t1);
                                k0.set_task(tid, t1).lemma_wf_logged(Event::Lock { task: tid, mutex: m });
                            },
                            Some(owner) => {
                                self.lemma_lock_blocked_wf(tid, m);
                                let k = self.set_mutex(m, mx.with_waiter(tid)).set_task(
                                    tid,
                                    t.parked(BlockReason::Mutex(m)),
                                ).idle_cpu().logged(Event::BlockOnMutex { task: tid, mutex: m, owner });
                                k.lemma_inherited_wf(tid);
                            },
                        }
                    },
                    Op::Unlock(m) => {
                        self.lemma_unlock_op(tid, m);
                    },
                    Op::SemWait(s) => {
                        self.lemma_sem_wait_wf(tid, s);
                    },
                    Op::SemSignal(s) => {
                        self.lemma_sem_signal_wf(tid, s);
                    },
                    Op::QueueSend(q, v) => {
                        self.lemma_queue_send_wf(tid, q, v);
                    },
                    Op::QueueRecv(q) => {
                        self.lemma_queue_recv_wf(tid, q);
                    },
                }
            },
        }
    }

    /// A running task's release of a mutex keeps the kernel well formed and leaves it
    /// running and moved forward.
    pub proof fn lemma_unlock_op(self, tid: usize, m: usize)
        requires
            self.wf(),
            tid < self.tasks.len(),
            m < self.mutexes.len(),
            crate::kernel::model::is_ready(self.tasks[tid as int]),
            self.tasks[tid as int].current_op() == Some(Op::Unlock(m)),
        ensures
            self.op_unlock(tid, m).wf(),
            self.op_unlock(tid, m).tasks.len() == self.tasks.len(),
            self.op_unlock(tid, m).tasks[tid as int].state == self.tasks[tid as int].state,
            self.op_unlock(tid, m).tasks[tid as int].pc == self.tasks[tid as int].pc + 1,
            self.op_unlock(tid, m).tasks[tid as int].program == self.tasks[tid as int].program,
    {
        self.lemma_unlock_wf(tid, m);
        assert(self.task_ok(tid as int));
        let t = self.tasks[tid as int];
        let mx = self.mutexes[m as int];
        let (mv, next) = mx.released(tid, crate::kernel::select::ranks_of(mx.waiters, self.eff_table()));
        let k1 = self.set_mutex(m, mv).set_task(
            tid,
            TaskView { held_mutexes: crate::kernel::model::without_value(t.held_mutexes, m), ..t }.advanced(),
        ).logged(Event::Unlock { task: tid, mutex: m });
        let pi = self.config.priority_inheritance;
        let k2 = if pi { k1.recomputed(tid) } else { k1 };
        if pi {
            k1.lemma_recomputed_wf(tid);
        }
        match next {
            Some(n) => {
                assert(k1.tasks[tid as int].pc == self.tasks[tid as int].pc + 1);
                assert(k2.tasks[tid as int].pc == k1.tasks[tid as int].pc);
                assert(k2.tasks[tid as int].state == k1.tasks[tid as int].state);
                assert(k2.tasks[n as int] == k1.tasks[n as int]);
                assert(k2.not_waiting(n));
                k2.lemma_handoff_wf(n, m);
                let tn = k2.tasks[n as int];
                let k3 = k2.set_task(
                    n,
                    TaskView { held_mutexes: tn.held_mutexes.push(m), ..tn }.woken_up().advanced(),
                ).logged(Event::Lock { task: n, mutex: m });
                assert(k3.tasks[tid as int].pc == k2.tasks[tid as int].pc);
                if pi {
                    k3.lemma_recomputed_wf(n);
                    assert(k3.recomputed(n).tasks[tid as int].pc == k3.tasks[tid as int].pc);
                }
            },
            None => {},
        }
    }
}

/// The operation at position `j` of `t`'s program names existing objects.
pub open spec fn op_valid_at(k: KernelView, t: TaskView, j: int) -> bool {
    crate::kernel::wellformed::op_valid(t.program[j], k.mutexes.len(), k.semaphores.len(), k.queues.len())
}

/// The tick ISR's changes to one task keep it well formed, and leave a task parked
/// on a synchronization object exactly as it was, but for its deadline bookkeeping.
pub proof fn lemma_tick_task(k: KernelView, i: int)
    requires
        k.wf(),
        0 <= i < k.tasks.len(),
    ensures
        ({
            let t = k.tasks[i];
            let t3 = deadline_checked(slept(released(t, k.now), k.now), k.now);
            &&& k.task_ok_with(i, t3)
            &&& (t.state == TaskState::Blocked && t.job_active && t.blocked_on != Some(BlockReason::Sleep)
                ==> t3.state == t.state && t3.blocked_on == t.blocked_on && t3.job_active && t3.pc == t.pc
                && t3.program == t.program)
        }),
{
    assert(k.task_ok(i));
}

impl KernelView {
    /// The tick ISR keeps the kernel well formed.
    pub proof fn lemma_ticked_wf(self)
        requires
            self.wf(),
        ensures
            self.ticked().wf(),
    {
        let k = self.ticked();
        let now = self.now;
        assert forall|x: int| 0 <= x < k.tasks.len() implies k.task_ok(x) by {
            lemma_tick_task(self, x);
        }
        assert forall|mm: int| 0 <= mm < k.mutexes.len() implies k.mutex_ok(mm) by {
            assert(self.mutex_ok(mm));
            assert forall|j: int| 0 <= j < k.mutexes[mm].waiters.len() implies k.waiter_ok(
                k.mutexes[mm].waiters[j],
                BlockReason::Mutex(mm as usize),
            ) by {
                let w = self.mutexes[mm].waiters[j];
                assert(self.waiter_ok(w, BlockReason::Mutex(mm as usize)));
                lemma_tick_task(self, w as int);
            }
        }
        assert forall|ss: int| 0 <= ss < k.semaphores.len() implies k.sem_ok(ss) by {
            assert(self.sem_ok(ss));
            assert forall|j: int| 0 <= j < k.semaphores[ss].waiters.len() implies k.waiter_ok(
                k.semaphores[ss].waiters[j],
                BlockReason::Semaphore(ss as usize),
            ) by {
                let w = self.semaphores[ss].waiters[j];
                assert(self.waiter_ok(w, BlockReason::Semaphore(ss as usize)));
                lemma_tick_task(self, w as int);
            }
        }
        assert forall|qq: int| 0 <= qq < k.queues.len() implies k.queue_ok(qq) by {
            assert(self.queue_ok(qq));
            assert forall|j: int| 0 <= j < k.queues[qq].recv_waiters.len() implies waiting_on(
                k.tasks[k.queues[qq].recv_waiters[j] as int],
                BlockReason::QueueRecv(qq as usize),
            ) by {
                lemma_tick_task(self, self.queues[qq].recv_waiters[j] as int);
            }
            assert forall|j: int| 0 <= j < k.queues[qq].send_waiters.len() implies waiting_on(
                k.tasks[k.queues[qq].send_waiters[j] as int],
                BlockReason::QueueSend(qq as usize),
            ) by {
                lemma_tick_task(self, self.queues[qq].send_waiters[j] as int);
            }
        }
    }

    /// Advancing the clock and servicing the interrupt lines keeps the kernel well
    /// formed.
    pub proof fn lemma_serviced_wf(self)
        requires
            self.wf(),
        ensures
            self.clocked().wf(),
            self.serviced().wf(),
    {
        let m1 = self.mcu.cycled();
        let m2 = crate::mcu::McuView { nvic: m1.nvic.drained(), ..m1 };
        self.lemma_wf_mcu(m2);
        let k0 = KernelView { mcu: m2, ..self };
        k0.lemma_wf_logged(Event::Tick((self.now + 1) as u64));
        let k1 = self.clocked();
        assert forall|x: int| 0 <= x < k1.tasks.len() implies k1.task_ok(x) by {
            assert(self.task_ok(x));
        }
        assert forall|mm: int| 0 <= mm < k1.mutexes.len() implies k1.mutex_ok(mm) by {
            assert(self.mutex_ok(mm));
        }
        assert forall|ss: int| 0 <= ss < k1.semaphores.len() implies k1.sem_ok(ss) by {
            assert(self.sem_ok(ss));
        }
        assert forall|qq: int| 0 <= qq < k1.queues.len() implies k1.queue_ok(qq) by {
            assert(self.queue_ok(qq));
        }
        if self.timer_due() {
            k1.lemma_ticked_wf();
        }
    }

    /// Appending a scheduling record keeps the kernel well formed.
    pub proof fn lemma_recorded_wf(self)
        requires
            self.wf(),
        ensures
            self.recorded().wf(),
    {
        let k = self.recorded();
        assert forall|x: int| 0 <= x < k.tasks.len() implies k.task_ok(x) by {
            assert(self.task_ok(x));
        }
        assert forall|mm: int| 0 <= mm < k.mutexes.len() implies k.mutex_ok(mm) by {
            assert(self.mutex_ok(mm));
        }
        assert forall|ss: int| 0 <= ss < k.semaphores.len() implies k.sem_ok(ss) by {
            assert(self.sem_ok(ss));
        }
        assert forall|qq: int| 0 <= qq < k.queues.len() implies k.queue_ok(qq) by {
            assert(self.queue_ok(qq));
        }
    }

    /// Dispatching a ready task keeps the kernel well formed and leaves it running.
    pub proof fn lemma_dispatch_prep_wf(self, tid: usize, top: u8)
        requires
            self.wf(),
            tid < self.tasks.len(),
            is_ready(self.tasks[tid as int]),
        ensures
            self.dispatch_prep(tid, top).wf(),
            self.dispatch_prep(tid, top).tasks.len() == self.tasks.len(),
            self.dispatch_prep(tid, top).tasks[tid as int].state == TaskState::Running,
    {
        let k1 = if self.tasks[tid as int].eff_priority < top {
            KernelView { invariant_violations: (self.invariant_violations + 1) as u64, ..self }
        } else {
            self
        };
        assert forall|x: int| 0 <= x < k1.tasks.len() implies k1.task_ok(x) by {
            assert(self.task_ok(x));
        }
        assert forall|mm: int| 0 <= mm < k1.mutexes.len() implies k1.mutex_ok(mm) by {
            assert(self.mutex_ok(mm));
        }
        assert forall|ss: int| 0 <= ss < k1.semaphores.len() implies k1.sem_ok(ss) by {
            assert(self.sem_ok(ss));
        }
        assert forall|qq: int| 0 <= qq < k1.queues.len() implies k1.queue_ok(qq) by {
            assert(self.queue_ok(qq));
        }
        assert(k1.wf());
        let k2 = match self.running {
            Some(prev) => if prev != tid && k1.tasks[prev as int].state == TaskState::Running {
                let tp = k1.tasks[prev as int];
                k1.set_task(
                    prev,
                    TaskView { state: TaskState::Ready, preemptions: (tp.preemptions + 1) as u64, ..tp },
                ).logged(Event::Preempt { preempted: prev, by: tid })
            } else {
                k1
            },
            None => k1,
        };
        match self.running {
            Some(prev) => {
                if prev != tid && k1.tasks[prev as int].state == TaskState::Running {
                    let tp = k1.tasks[prev as int];
                    let t2 = TaskView { state: TaskState::Ready, preemptions: (tp.preemptions + 1) as u64, ..tp };
                    k1.lemma_ready_not_waiting(prev);
                    assert(k1.task_ok(prev as int));
                    k1.lemma_set_task_wf(prev, t2);
                    k1.set_task(prev, t2).lemma_wf_logged(Event::Preempt { preempted: prev, by: tid });
                }
            },
            None => {},
        }
        assert(k2.wf());
        assert(k2.tasks[tid as int] == self.tasks[tid as int]);
        k2.lemma_ready_not_waiting(tid);
        assert(k2.task_ok(tid as int));
        let t3 = TaskView { state: TaskState::Running, ..k2.tasks[tid as int] };
        let k3 = KernelView { running: Some(tid), ..k2 };
        assert forall|x: int| 0 <= x < k3.tasks.len() implies k3.task_ok(x) by {
            assert(k2.task_ok(x));
        }
        assert forall|mm: int| 0 <= mm < k3.mutexes.len() implies k3.mutex_ok(mm) by {
            assert(k2.mutex_ok(mm));
        }
        assert forall|ss: int| 0 <= ss < k3.semaphores.len() implies k3.sem_ok(ss) by {
            assert(k2.sem_ok(ss));
        }
        assert forall|qq: int| 0 <= qq < k3.queues.len() implies k3.queue_ok(qq) by {
            assert(k2.queue_ok(qq));
        }
        assert(k3.wf());
        assert(k3.not_waiting(tid));
        k3.lemma_set_task_wf(tid, t3);
        k3.set_task(tid, t3).lemma_wf_logged(Event::Run { task: tid });
    }

    /// Well-formedness depends only on the chip, the tasks, the objects and the
    /// running task.
    pub proof fn lemma_wf_same_structure(self, k: KernelView)
        requires
            self.wf(),
            k.mcu == self.mcu,
            k.tasks == self.tasks,
            k.mutexes == self.mutexes,
            k.semaphores == self.semaphores,
            k.queues == self.queues,
            k.running is None || k.running == self.running,
        ensures
            k.wf(),
    {
        assert forall|x: int| 0 <= x < k.tasks.len() implies k.task_ok(x) by {
            assert(self.task_ok(x));
        }
        assert forall|mm: int| 0 <= mm < k.mutexes.len() implies k.mutex_ok(mm) by {
            assert(self.mutex_ok(mm));
        }
        assert forall|ss: int| 0 <= ss < k.semaphores.len() implies k.sem_ok(ss) by {
            assert(self.sem_ok(ss));
        }
        assert forall|qq: int| 0 <= qq < k.queues.len() implies k.queue_ok(qq) by {
            assert(self.queue_ok(qq));
        }
    }

    /// Adding a task that starts at the top of a program naming existing objects,
    /// holding and waiting for nothing, keeps the kernel well formed.
    pub proof fn lemma_new_task_wf(self, t: TaskView)
        requires
            self.wf(),
            self.tasks.len() < usize::MAX,
            t.pc <= t.program.len() <= usize::MAX,
            t.held_mutexes.len() == 0,
            t.blocked_on is None,
            forall|j: int|
                0 <= j < t.program.len() ==> crate::kernel::wellformed::op_valid(
                    #[trigger] t.program[j],
                    self.mutexes.len(),
                    self.semaphores.len(),
                    self.queues.len(),
                ),
        ensures
            self.with_new_task(t).wf(),
    {
        let k = self.with_new_task(t);
        assert forall|x: int| 0 <= x < k.tasks.len() implies k.task_ok(x) by {
            if x < self.tasks.len() {
                assert(self.task_ok(x));
            }
        }
        assert forall|mm: int| 0 <= mm < k.mutexes.len() implies k.mutex_ok(mm) by {
            assert(self.mutex_ok(mm));
            assert forall|j: int| 0 <= j < k.mutexes[mm].waiters.len() implies k.waiter_ok(
                k.mutexes[mm].waiters[j],
                BlockReason::Mutex(mm as usize),
            ) by {
                assert(self.waiter_ok(self.mutexes[mm].waiters[j], BlockReason::Mutex(mm as usize)));
            }
        }
        assert forall|ss: int| 0 <= ss < k.semaphores.len() implies k.sem_ok(ss) by {
            assert(self.sem_ok(ss));
            assert forall|j: int| 0 <= j < k.semaphores[ss].waiters.len() implies k.waiter_ok(
                k.semaphores[ss].waiters[j],
                BlockReason::Semaphore(ss as usize),
            ) by {
                assert(self.waiter_ok(self.semaphores[ss].waiters[j], BlockReason::Semaphore(ss as usize)));
            }
        }
        assert forall|qq: int| 0 <= qq < k.queues.len() implies k.queue_ok(qq) by {
            assert(self.queue_ok(qq));
        }
    }

    /// Adding a free mutex keeps the kernel well formed.
    pub proof fn lemma_new_mutex_wf(self)
        requires
            self.wf(),
            self.mutexes.len() < usize::MAX,
        ensures
            (KernelView { mutexes: self.mutexes.push(crate::kernel::MutexView::fresh()), ..self }).wf(),
    {
        let k = KernelView { mutexes: self.mutexes.push(crate::kernel::MutexView::fresh()), ..self };
        assert forall|x: int| 0 <= x < k.tasks.len() implies k.task_ok(x) by {
            assert(self.task_ok(x));
            let t = self.tasks[x];
            assert forall|j: int| 0 <= j < t.program.len() implies crate::kernel::wellformed::op_valid(
                t.program[j],
                k.mutexes.len(),
                k.semaphores.len(),
                k.queues.len(),
            ) by {
                assert(crate::kernel::wellformed::op_valid(
                    t.program[j],
                    self.mutexes.len(),
                    self.semaphores.len(),
                    self.queues.len(),
                ));
            }
        }
        assert forall|mm: int| 0 <= mm < k.mutexes.len() implies k.mutex_ok(mm) by {
            if mm < self.mutexes.len() {
                assert(self.mutex_ok(mm));
                assert forall|j: int| 0 <= j < k.mutexes[mm].waiters.len() implies k.waiter_ok(
                    k.mutexes[mm].waiters[j],
                    BlockReason::Mutex(mm as usize),
                ) by {
                    assert(self.waiter_ok(self.mutexes[mm].waiters[j], BlockReason::Mutex(mm as usize)));
                }
            }
        }
        assert forall|ss: int| 0 <= ss < k.semaphores.len() implies k.sem_ok(ss) by {
            assert(self.sem_ok(ss));
        }
        assert forall|qq: int| 0 <= qq < k.queues.len() implies k.queue_ok(qq) by {
            assert(self.queue_ok(qq));
        }
    }

    /// Adding a semaphore with nobody waiting keeps the kernel well formed.
    pub proof fn lemma_new_semaphore_wf(self, v: crate::kernel::SemaphoreView)
        requires
            self.wf(),
            self.semaphores.len() < usize::MAX,
            v.waiters.len() == 0,
        ensures
            (KernelView { semaphores: self.semaphores.push(v), ..self }).wf(),
    {
        let k = KernelView { semaphores: self.semaphores.push(v), ..self };
        assert forall|x: int| 0 <= x < k.tasks.len() implies k.task_ok(x) by {
            assert(self.task_ok(x));
            let t = self.tasks[x];
            assert forall|j: int| 0 <= j < t.program.len() implies crate::kernel::wellformed::op_valid(
                t.program[j],
                k.mutexes.len(),
                k.semaphores.len(),
                k.queues.len(),
            ) by {
                assert(crate::kernel::wellformed::op_valid(
                    t.program[j],
                    self.mutexes.len(),
                    self.semaphores.len(),
                    self.queues.len(),
                ));
            }
        }
        assert forall|mm: int| 0 <= mm < k.mutexes.len() implies k.mutex_ok(mm) by {
            assert(self.mutex_ok(mm));
        }
        assert forall|ss: int| 0 <= ss < k.semaphores.len() implies k.sem_ok(ss) by {
            if ss < self.semaphores.len() {
                assert(self.sem_ok(ss));
                assert forall|j: int| 0 <= j < k.semaphores[ss].waiters.len() implies k.waiter_ok(
                    k.semaphores[ss].waiters[j],
                    BlockReason::Semaphore(ss as usize),
                ) by {
                    assert(self.waiter_ok(self.semaphores[ss].waiters[j], BlockReason::Semaphore(ss as usize)));
                }
            }
        }
        assert forall|qq: int| 0 <= qq < k.queues.len() implies k.queue_ok(qq) by {
            assert(self.queue_ok(qq));
        }
    }

    /// Adding a queue with nobody waiting keeps the kernel well formed.
    pub proof fn lemma_new_queue_wf(self, v: QueueView)
        requires
            self.wf(),
            self.queues.len() < usize::MAX,
            v.recv_waiters.len() == 0,
            v.send_waiters.len() == 0,
        ensures
            (KernelView { queues: self.queues.push(v), ..self }).wf(),
    {
        let k = KernelView { queues: self.queues.push(v), ..self };
        assert forall|x: int| 0 <= x < k.tasks.len() implies k.task_ok(x) by {
            assert(self.task_ok(x));
            let t = self.tasks[x];
            assert forall|j: int| 0 <= j < t.program.len() implies crate::kernel::wellformed::op_valid(
                t.program[j],
                k.mutexes.len(),
                k.semaphores.len(),
                k.queues.len(),
            ) by {
                assert(crate::kernel::wellformed::op_valid(
                    t.program[j],
                    self.mutexes.len(),
                    self.semaphores.len(),
                    self.queues.len(),
                ));
            }
        }
        assert forall|mm: int| 0 <= mm < k.mutexes.len() implies k.mutex_ok(mm) by {
            assert(self.mutex_ok(mm));
        }
        assert forall|ss: int| 0 <= ss < k.semaphores.len() implies k.sem_ok(ss) by {
            assert(self.sem_ok(ss));
        }
        assert forall|qq: int| 0 <= qq < k.queues.len() implies k.queue_ok(qq) by {
            if qq < self.queues.len() {
                assert(self.queue_ok(qq));
            }
        }
    }
}

} // verus!
