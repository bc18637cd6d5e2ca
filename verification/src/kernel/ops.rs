//! Running a task for one quantum: its operations, one at a time.
use vstd::prelude::*;
use crate::kernel::{lemma_mutexes_update, lemma_queues_update, lemma_semaphores_update, lemma_task_lens, lemma_tasks_update, BlockReason, Event, Kernel, Op, TaskState};
use crate::kernel::select::ranks_of;

verus! {

/// `v` without any occurrence of `x`.
fn without(v: &Vec<usize>, x: usize) -> (r: Vec<usize>)
    ensures
        r@ == crate::kernel::model::without_value(v@, x),
{
    let mut r: Vec<usize> = Vec::new();
    let mut i: usize = 0;
    while i < v.len()
        invariant
            i <= v.len(),
            r@ == v@.take(i as int).filter(crate::kernel::model::differs_from(x)),
        decreases v.len() - i,
    {
        proof {
            assert(v@.take(i + 1) =~= v@.take(i as int).push(v@[i as int]));
            v@.take(i as int).lemma_filter_push(v@[i as int], crate::kernel::model::differs_from(x));
        }
        if v[i] != x {
            r.push(v[i]);
        }
        i = i + 1;
    }
    assert(v@.take(v@.len() as int) =~= v@);
    r
}

impl Kernel {
    /// A copy of the operation at `tid`'s program counter, if any.
    fn op_at(&self, tid: usize) -> (r: Option<Op>)
        requires
            tid < self@.tasks.len(),
        ensures
            r == self@.tasks[tid as int].current_op(),
    {
        assert(self@.tasks[tid as int] == self.tasks@[tid as int]@);
        let pc = self.tasks[tid].pc;
        if pc >= self.tasks[tid].program.len() {
            return None;
        }
        let op = match &self.tasks[tid].program[pc] {
            Op::Compute(n) => Op::Compute(*n),
            Op::Delay(n) => Op::Delay(*n),
            Op::GpioSet(pin, level) => Op::GpioSet(*pin, *level),
            Op::GpioToggle(pin) => Op::GpioToggle(*pin),
            Op::Uart(text) => Op::Uart(text.clone()),
            Op::Lock(m) => Op::Lock(*m),
            Op::Unlock(m) => Op::Unlock(*m),
            Op::SemWait(s) => Op::SemWait(*s),
            Op::SemSignal(s) => Op::SemSignal(*s),
            Op::QueueSend(q, v) => Op::QueueSend(*q, *v),
            Op::QueueRecv(q) => Op::QueueRecv(*q),
        };
        Some(op)
    }

    fn advance_task(&mut self, tid: usize)
        requires
            tid < old(self)@.tasks.len(),
            old(self)@.tasks[tid as int].pc < old(self)@.tasks[tid as int].program.len(),
        ensures
            final(self)@ == old(self)@.set_task(tid, old(self)@.tasks[tid as int].advanced()),
    {
        let ghost before = self.tasks@;
        assert(self@.tasks[tid as int] == self.tasks@[tid as int]@);
        proof {
            lemma_task_lens(self.tasks@[tid as int]);
        }
        self.tasks[tid].advance();
        proof {
            lemma_tasks_update(before, tid as int, self.tasks@[tid as int]);
        }
    }

    fn park_task(&mut self, tid: usize, reason: BlockReason)
        requires
            tid < old(self)@.tasks.len(),
        ensures
            final(self)@ == old(self)@.set_task(tid, old(self)@.tasks[tid as int].parked(reason)).idle_cpu(),
    {
        let ghost before = self.tasks@;
        assert(self@.tasks[tid as int] == self.tasks@[tid as int]@);
        self.tasks[tid].park(reason);
        proof {
            lemma_tasks_update(before, tid as int, self.tasks@[tid as int]);
        }
        self.running = None;
    }

    fn wake_task(&mut self, tid: usize)
        requires
            tid < old(self)@.tasks.len(),
        ensures
            final(self)@ == old(self)@.set_task(tid, old(self)@.tasks[tid as int].woken_up()),
    {
        let ghost before = self.tasks@;
        assert(self@.tasks[tid as int] == self.tasks@[tid as int]@);
        self.tasks[tid].wake();
        proof {
            lemma_tasks_update(before, tid as int, self.tasks@[tid as int]);
        }
    }

    fn push_held(&mut self, tid: usize, m: usize)
        requires
            tid < old(self)@.tasks.len(),
        ensures
            final(self)@ == old(self)@.set_task(
                tid,
                crate::kernel::TaskView {
                    held_mutexes: old(self)@.tasks[tid as int].held_mutexes.push(m),
                    ..old(self)@.tasks[tid as int]
                },
            ),
    {
        let ghost before = self.tasks@;
        assert(self@.tasks[tid as int] == self.tasks@[tid as int]@);
        self.tasks[tid].held_mutexes.push(m);
        proof {
            lemma_tasks_update(before, tid as int, self.tasks@[tid as int]);
        }
    }

    fn complete_job(&mut self, tid: usize)
        requires
            tid < old(self)@.tasks.len(),
            old(self)@.tasks[tid as int].jobs_completed < u64::MAX,
        ensures
            final(self)@ == old(self)@.completed(tid),
    {
        let ghost before = self.tasks@;
        assert(self@.tasks[tid as int] == self.tasks@[tid as int]@);
        self.tasks[tid].finish_job();
        proof {
            lemma_tasks_update(before, tid as int, self.tasks@[tid as int]);
        }
        self.running = None;
        self.log.push(Event::Complete { task: tid });
    }

    fn run_compute(&mut self, tid: usize, n: u64) -> (go_on: bool)
        requires
            tid < old(self)@.tasks.len(),
            old(self)@.tasks[tid as int].current_op() == Some(Op::Compute(n)),
            old(self)@.op_fits(tid),
        ensures
            (final(self)@, go_on) == old(self)@.op_compute(tid, n),
    {
        let ghost k = self@;
        let ghost t = k.tasks[tid as int];
        assert(self@.tasks[tid as int] == self.tasks@[tid as int]@);
        let cr0 = self.tasks[tid].compute_remaining;
        let cr = if cr0 == 0 { n } else { cr0 };
        let ghost before = self.tasks@;
        proof {
            lemma_task_lens(self.tasks@[tid as int]);
        }
        if cr == 0 {
            self.tasks[tid].compute_remaining = 0;
            self.tasks[tid].pc = self.tasks[tid].pc + 1;
            proof {
                assert(self.tasks@ =~= before.update(tid as int, self.tasks@[tid as int]));
                lemma_tasks_update(before, tid as int, self.tasks@[tid as int]);
                assert(self.tasks@[tid as int]@ == crate::kernel::TaskView { compute_remaining: 0, ..t }.advanced());
            }
            return true;
        }
        self.tasks[tid].compute_remaining = cr - 1;
        self.tasks[tid].cpu_ticks = self.tasks[tid].cpu_ticks + 1;
        if cr == 1 {
            self.tasks[tid].pc = self.tasks[tid].pc + 1;
        }
        proof {
            assert(self.tasks@ =~= before.update(tid as int, self.tasks@[tid as int]));
            lemma_tasks_update(before, tid as int, self.tasks@[tid as int]);
        }
        if cr == 1 && self.tasks[tid].pc >= self.tasks[tid].program.len() {
            self.complete_job(tid);
        }
        false
    }

    fn run_delay(&mut self, tid: usize, n: u64) -> (go_on: bool)
        requires
            tid < old(self)@.tasks.len(),
            old(self)@.tasks[tid as int].current_op() == Some(Op::Delay(n)),
            old(self)@.op_fits(tid),
        ensures
            (final(self)@, go_on) == old(self)@.op_delay(tid, n),
    {
        let ghost k = self@;
        self.advance_task(tid);
        if n == 0 {
            return true;
        }
        let until = self.now + n;
        let ghost before = self.tasks@;
        assert(self.tasks@.len() == self@.tasks.len());
        assert(self@.tasks[tid as int] == self.tasks@[tid as int]@);
        self.tasks[tid].park(BlockReason::Sleep);
        self.tasks[tid].wake_at = until;
        proof {
            assert(self.tasks@ =~= before.update(tid as int, self.tasks@[tid as int]));
            lemma_tasks_update(before, tid as int, self.tasks@[tid as int]);
        }
        self.running = None;
        self.log.push(Event::Sleep { task: tid, until });
        proof {
            let t = k.tasks[tid as int].advanced();
            assert(self@.tasks =~= k.tasks.update(
                tid as int,
                crate::kernel::TaskView { wake_at: until, ..t.parked(BlockReason::Sleep) },
            ));
        }
        false
    }

    fn run_lock(&mut self, tid: usize, m: usize) -> (go_on: bool)
        requires
            old(self)@.wf(),
            tid < old(self)@.tasks.len(),
            m < old(self)@.mutexes.len(),
            crate::kernel::model::is_ready(old(self)@.tasks[tid as int]),
            old(self)@.tasks[tid as int].current_op() == Some(Op::Lock(m)),
        ensures
            (final(self)@, go_on) == old(self)@.op_lock(tid, m),
    {
        let ghost k = self@;
        assert(self@.mutexes[m as int] == self.mutexes@[m as int]@);
        let ghost mbefore = self.mutexes@;
        if self.mutexes[m].try_acquire(tid) {
            proof {
                lemma_mutexes_update(mbefore, m as int, self.mutexes@[m as int]);
            }
            self.push_held(tid, m);
            self.advance_task(tid);
            self.log.push(Event::Lock { task: tid, mutex: m });
            proof {
                let t = k.tasks[tid as int];
                assert(self@.tasks =~= k.tasks.update(
                    tid as int,
                    crate::kernel::TaskView { held_mutexes: t.held_mutexes.push(m), ..t }.advanced(),
                ));
            }
            true
        } else {
            proof {
                lemma_mutexes_update(mbefore, m as int, self.mutexes@[m as int]);
                assert(self@.mutexes =~= k.mutexes);
            }
            let owner = self.mutexes[m].owner.unwrap();
            let ghost mbefore2 = self.mutexes@;
            self.mutexes[m].add_waiter(tid);
            proof {
                lemma_mutexes_update(mbefore2, m as int, self.mutexes@[m as int]);
            }
            self.park_task(tid, BlockReason::Mutex(m));
            self.log.push(Event::BlockOnMutex { task: tid, mutex: m, owner });
            proof {
                assert(self@ == k.set_mutex(m, k.mutexes[m as int].with_waiter(tid)).set_task(
                    tid,
                    k.tasks[tid as int].parked(BlockReason::Mutex(m)),
                ).idle_cpu().logged(Event::BlockOnMutex { task: tid, mutex: m, owner }));
            }
            if self.config.priority_inheritance {
                proof {
                    k.lemma_lock_blocked_wf(tid, m);
                    self@.lemma_wf_refs_ok();
                    self@.lemma_refs_chain(tid);
                }
                self.apply_inheritance(tid);
            }
            false
        }
    }

    fn run_gpio_set(&mut self, tid: usize, pin: usize, level: bool)
        requires
            tid < old(self)@.tasks.len(),
            old(self)@.tasks[tid as int].current_op() == Some(Op::GpioSet(pin, level)),
        ensures
            final(self)@ == old(self)@.op_gpio_set(tid, pin, level),
    {
        let ghost k = self@;
        self.mcu.drive_pin(pin, level);
        self.advance_task(tid);
        self.log.push(Event::Gpio { task: tid, pin, level });
    }

    fn run_gpio_toggle(&mut self, tid: usize, pin: usize)
        requires
            tid < old(self)@.tasks.len(),
            old(self)@.tasks[tid as int].current_op() == Some(Op::GpioToggle(pin)),
        ensures
            final(self)@ == old(self)@.op_gpio_toggle(tid, pin),
    {
        let r = self.mcu.toggle_pin(pin);
        let level = match r {
            Some(l) => l,
            None => false,
        };
        self.advance_task(tid);
        self.log.push(Event::Gpio { task: tid, pin, level });
    }

    fn run_uart(&mut self, tid: usize, text: String)
        requires
            tid < old(self)@.tasks.len(),
            old(self)@.tasks[tid as int].current_op() == Some(Op::Uart(text)),
            old(self)@.op_fits(tid),
        ensures
            final(self)@ == old(self)@.op_uart(tid, text),
    {
        self.mcu.transmit(text.as_str());
        self.advance_task(tid);
        self.log.push(Event::Uart { task: tid, text });
    }

    fn run_unlock(&mut self, tid: usize, m: usize)
        requires
            old(self)@.wf(),
            tid < old(self)@.tasks.len(),
            m < old(self)@.mutexes.len(),
            crate::kernel::model::is_ready(old(self)@.tasks[tid as int]),
            old(self)@.tasks[tid as int].current_op() == Some(Op::Unlock(m)),
        ensures
            final(self)@ == old(self)@.op_unlock(tid, m),
            final(self)@.wf(),
    {
        let ghost k = self@;
        let snap = self.eff_snapshot();
        proof {
            k.lemma_wf_refs_ok();
            assert(k.mutex_refs_ok(m as int));
            assert(self@.mutexes[m as int] == self.mutexes@[m as int]@);
        }
        let ghost mbefore = self.mutexes@;
        let next = self.mutexes[m].release_by_table(tid, &snap);
        proof {
            lemma_mutexes_update(mbefore, m as int, self.mutexes@[m as int]);
        }
        let ghost before = self.tasks@;
        assert(self@.tasks[tid as int] == self.tasks@[tid as int]@);
        let held = without(&self.tasks[tid].held_mutexes, m);
        self.tasks[tid].held_mutexes = held;
        proof {
            lemma_tasks_update(before, tid as int, self.tasks@[tid as int]);
        }
        self.advance_task(tid);
        self.log.push(Event::Unlock { task: tid, mutex: m });
        proof {
            k.lemma_unlock_wf(tid, m);
            let t = k.tasks[tid as int];
            let mx = k.mutexes[m as int];
            let (mv, nx) = mx.released(tid, ranks_of(mx.waiters, k.eff_table()));
            assert(nx == next);
            assert(self@.tasks =~= k.tasks.update(
                tid as int,
                crate::kernel::TaskView { held_mutexes: crate::kernel::model::without_value(t.held_mutexes, m), ..t }.advanced(),
            ));
            assert(self@ == k.set_mutex(m, mv).set_task(
                tid,
                crate::kernel::TaskView { held_mutexes: crate::kernel::model::without_value(t.held_mutexes, m), ..t }.advanced(),
            ).logged(Event::Unlock { task: tid, mutex: m }));
        }
        let ghost k1 = self@;
        if self.config.priority_inheritance {
            proof {
                self@.lemma_wf_refs_ok();
            }
            proof {
                self@.lemma_refs_holder(tid as int);
            }
            self.recompute_holder(tid);
            proof {
                k1.lemma_recomputed_wf(tid);
            }
        }
        assert(self@ == (if k.config.priority_inheritance { k1.recomputed(tid) } else { k1 }));
        assert(self@.wf());
        match next {
            Some(n) => {
                let ghost k2 = self@;
                proof {
                    k2.lemma_handoff_wf(n, m);
                }
                self.push_held(n, m);
                self.wake_task(n);
                self.advance_task(n);
                self.log.push(Event::Lock { task: n, mutex: m });
                proof {
                    let tn = k2.tasks[n as int];
                    assert(self@.tasks =~= k2.tasks.update(
                        n as int,
                        crate::kernel::TaskView { held_mutexes: tn.held_mutexes.push(m), ..tn }.woken_up().advanced(),
                    ));
                }
                assert(self@.wf());
                if self.config.priority_inheritance {
                    let ghost k3 = self@;
                    proof {
                        self@.lemma_wf_refs_ok();
                    }
                    proof {
                        self@.lemma_refs_holder(n as int);
                    }
                    self.recompute_holder(n);
                    proof {
                        k3.lemma_recomputed_wf(n);
                    }
                }
                assert(self@ == k.op_unlock(tid, m));
            },
            None => {
                assert(self@ == k.op_unlock(tid, m));
            },
        }
    }

    fn run_sem_wait(&mut self, tid: usize, s: usize) -> (go_on: bool)
        requires
            tid < old(self)@.tasks.len(),
            s < old(self)@.semaphores.len(),
            old(self)@.tasks[tid as int].current_op() == Some(Op::SemWait(s)),
        ensures
            (final(self)@, go_on) == old(self)@.op_sem_wait(tid, s),
    {
        let ghost k = self@;
        assert(self@.semaphores[s as int] == self.semaphores@[s as int]@);
        let ghost sbefore = self.semaphores@;
        if self.semaphores[s].try_wait() {
            proof {
                lemma_semaphores_update(sbefore, s as int, self.semaphores@[s as int]);
            }
            self.advance_task(tid);
            self.log.push(Event::SemWait { task: tid, sem: s });
            true
        } else {
            proof {
                lemma_semaphores_update(sbefore, s as int, self.semaphores@[s as int]);
                assert(self@.semaphores =~= k.semaphores);
            }
            let ghost sbefore2 = self.semaphores@;
            self.semaphores[s].add_waiter(tid);
            proof {
                lemma_semaphores_update(sbefore2, s as int, self.semaphores@[s as int]);
            }
            self.park_task(tid, BlockReason::Semaphore(s));
            self.log.push(Event::SemBlock { task: tid, sem: s });
            false
        }
    }

    fn run_sem_signal(&mut self, tid: usize, s: usize)
        requires
            old(self)@.wf(),
            tid < old(self)@.tasks.len(),
            s < old(self)@.semaphores.len(),
            crate::kernel::model::is_ready(old(self)@.tasks[tid as int]),
            old(self)@.tasks[tid as int].current_op() == Some(Op::SemSignal(s)),
        ensures
            final(self)@ == old(self)@.op_sem_signal(tid, s),
            final(self)@.wf(),
    {
        let ghost k = self@;
        let snap = self.eff_snapshot();
        proof {
            k.lemma_sem_signal_wf(tid, s);
            assert(self@.semaphores[s as int] == self.semaphores@[s as int]@);
        }
        let ghost sbefore = self.semaphores@;
        let woken = self.semaphores[s].signal_by_table(&snap);
        proof {
            lemma_semaphores_update(sbefore, s as int, self.semaphores@[s as int]);
        }
        self.advance_task(tid);
        self.log.push(Event::SemSignal { task: tid, sem: s });
        let ghost k1 = self@;
        match woken {
            Some(w) => {
                self.wake_task(w);
                self.advance_task(w);
                self.log.push(Event::SemWait { task: w, sem: s });
                proof {
                    assert(self@.tasks =~= k1.tasks.update(w as int, k1.tasks[w as int].woken_up().advanced()));
                }
            },
            None => {},
        }
    }

    fn run_queue_send(&mut self, tid: usize, q: usize, value: u32) -> (go_on: bool)
        requires
            old(self)@.wf(),
            tid < old(self)@.tasks.len(),
            q < old(self)@.queues.len(),
            crate::kernel::model::is_ready(old(self)@.tasks[tid as int]),
            old(self)@.tasks[tid as int].current_op() == Some(Op::QueueSend(q, value)),
            old(self)@.op_fits(tid),
        ensures
            (final(self)@, go_on) == old(self)@.op_queue_send(tid, q, value),
            final(self)@.wf(),
    {
        let ghost k = self@;
        proof {
            k.lemma_queue_send_wf(tid, q, value);
        }
        assert(self@.queues[q as int] == self.queues@[q as int]@);
        let ghost qbefore = self.queues@;
        if self.queues[q].try_send(value) {
            proof {
                lemma_queues_update(qbefore, q as int, self.queues@[q as int]);
            }
            self.advance_task(tid);
            self.log.push(Event::QueueSend { task: tid, queue: q, value });
            let snap = self.eff_snapshot();
            let ghost qbefore2 = self.queues@;
            assert(self@.queues[q as int] == self.queues@[q as int]@);
            proof {
                let l = self@.queues[q as int].recv_waiters;
                if l.len() > 0 {
                    crate::kernel::select::lemma_choice_exists(l, ranks_of(l, snap@));
                }
            }
            let r = self.queues[q].wake_receiver_by_table(&snap);
            proof {
                lemma_queues_update(qbefore2, q as int, self.queues@[q as int]);
            }
            match r {
                Some(r) => {
                    self.wake_task(r);
                },
                None => {},
            }
            true
        } else {
            proof {
                lemma_queues_update(qbefore, q as int, self.queues@[q as int]);
                assert(self@.queues =~= k.queues);
            }
            let ghost qbefore2 = self.queues@;
            self.queues[q].add_send_waiter(tid);
            proof {
                lemma_queues_update(qbefore2, q as int, self.queues@[q as int]);
            }
            self.park_task(tid, BlockReason::QueueSend(q));
            self.log.push(Event::QueueBlock { task: tid, queue: q });
            false
        }
    }

    fn run_queue_recv(&mut self, tid: usize, q: usize) -> (go_on: bool)
        requires
            old(self)@.wf(),
            tid < old(self)@.tasks.len(),
            q < old(self)@.queues.len(),
            crate::kernel::model::is_ready(old(self)@.tasks[tid as int]),
            old(self)@.tasks[tid as int].current_op() == Some(Op::QueueRecv(q)),
            old(self)@.op_fits(tid),
        ensures
            (final(self)@, go_on) == old(self)@.op_queue_recv(tid, q),
            final(self)@.wf(),
    {
        let ghost k = self@;
        proof {
            k.lemma_queue_recv_wf(tid, q);
        }
        assert(self@.queues[q as int] == self.queues@[q as int]@);
        let ghost qbefore = self.queues@;
        match self.queues[q].try_recv() {
            Some(value) => {
                proof {
                    lemma_queues_update(qbefore, q as int, self.queues@[q as int]);
                }
                self.advance_task(tid);
                self.log.push(Event::QueueRecv { task: tid, queue: q, value });
                let snap = self.eff_snapshot();
                let ghost qbefore2 = self.queues@;
                assert(self@.queues[q as int] == self.queues@[q as int]@);
                proof {
                    let l = self@.queues[q as int].send_waiters;
                    if l.len() > 0 {
                        crate::kernel::select::lemma_choice_exists(l, ranks_of(l, snap@));
                    }
                }
                let r = self.queues[q].wake_sender_by_table(&snap);
                proof {
                    lemma_queues_update(qbefore2, q as int, self.queues@[q as int]);
                }
                match r {
                    Some(r) => {
                        self.wake_task(r);
                    },
                    None => {},
                }
                true
            },
            None => {
                proof {
                    lemma_queues_update(qbefore, q as int, self.queues@[q as int]);
                    assert(self@.queues =~= k.queues);
                }
                let ghost qbefore2 = self.queues@;
                self.queues[q].add_recv_waiter(tid);
                proof {
                    lemma_queues_update(qbefore2, q as int, self.queues@[q as int]);
                }
                self.park_task(tid, BlockReason::QueueRecv(q));
                self.log.push(Event::QueueBlock { task: tid, queue: q });
                false
            },
        }
    }

    /// One iteration of `tid`'s quantum; returns whether the quantum goes on.
    fn run_op(&mut self, tid: usize) -> (go_on: bool)
        requires
            old(self)@.wf(),
            tid < old(self)@.tasks.len(),
            crate::kernel::model::is_ready(old(self)@.tasks[tid as int]),
            old(self)@.op_fits(tid),
        ensures
            (final(self)@, go_on) == old(self)@.op_step(tid),
            final(self)@.wf(),
            go_on ==> old(self)@.makes_progress(final(self)@, tid) && final(self)@.tasks[tid as int].state
                == old(self)@.tasks[tid as int].state,
    {
        let ghost k = self@;
        proof {
            k.lemma_op_step(tid);
            assert(k.task_ok(tid as int));
        }
        match self.op_at(tid) {
            None => {
                self.complete_job(tid);
                false
            },
            Some(op) => {
                proof {
                    assert(crate::kernel::preserve::op_valid_at(k, k.tasks[tid as int], k.tasks[tid as int].pc as int));
                }
                match op {
                    Op::Compute(n) => self.run_compute(tid, n),
                    Op::Delay(n) => self.run_delay(tid, n),
                    Op::GpioSet(pin, level) => {
                        self.run_gpio_set(tid, pin, level);
                        true
                    },
                    Op::GpioToggle(pin) => {
                        self.run_gpio_toggle(tid, pin);
                        true
                    },
                    Op::Uart(text) => {
                        self.run_uart(tid, text);
                        true
                    },
                    Op::Lock(m) => self.run_lock(tid, m),
                    Op::Unlock(m) => {
                        self.run_unlock(tid, m);
                        true
                    },
                    Op::SemWait(s) => self.run_sem_wait(tid, s),
                    Op::SemSignal(s) => {
                        self.run_sem_signal(tid, s);
                        true
                    },
                    Op::QueueSend(q, v) => self.run_queue_send(tid, q, v),
                    Op::QueueRecv(q) => self.run_queue_recv(tid, q),
                }
            },
        }
    }

    /// Run one task for a single quantum. Instantaneous operations (peripheral
    /// writes, non-blocking synchronization) chain within the quantum until a
    /// compute step consumes the CPU tick, the task blocks, or the job ends.
    pub(crate) fn run_quantum(&mut self, tid: usize)
        requires
            old(self)@.wf(),
            tid < old(self)@.tasks.len(),
            crate::kernel::model::is_ready(old(self)@.tasks[tid as int]),
            old(self)@.quantum_fits(tid),
        ensures
            final(self)@ == old(self)@.quantum(tid),
            final(self)@.wf(),
    {
        loop
            invariant
                self@.wf(),
                tid < self@.tasks.len(),
                crate::kernel::model::is_ready(self@.tasks[tid as int]),
                self@.quantum_fits(tid),
                self@.quantum(tid) == old(self)@.quantum(tid),
            ensures
                self@ == old(self)@.quantum(tid),
                self@.wf(),
            decreases self@.ops_left(tid),
        {
            let ghost k = self@;
            let go_on = self.run_op(tid);
            if !go_on {
                return;
            }
        }
    }
}

} // verus!
