//! The run loop: the tick ISR, the scheduling decision, and dispatch.
use vstd::prelude::*;
use crate::kernel::{
    lemma_records_push, lemma_tasks_update, Event, Kernel, KernelView, ReadyEntry, TaskState,
    TickRecord,
};
use crate::kernel::model::{deadline_checked, max_eff, miss_events, misses, picked, ready_entries, release_events, released, slept};
use crate::kernel::laws::{lemma_pick_prefix_full, law_pick_carries_top_priority, law_pick_is_highest_ready, pick_prefix};
use crate::mcu::Irq;

verus! {

impl Kernel {
    /// The tick ISR: release due jobs, wake sleepers, flag missed deadlines.
    fn on_tick(&mut self)
        requires
            old(self)@.tick_fits(),
        ensures
            final(self)@ == old(self)@.ticked(),
    {
        let ghost k0 = self@;
        let now = self.now;
        let n = self.tasks.len();
        let ghost t1 = Seq::new(n as nat, |j: int| released(k0.tasks[j], now));
        let ghost t2 = Seq::new(n as nat, |j: int| slept(t1[j], now));
        let ghost t3 = Seq::new(n as nat, |j: int| deadline_checked(t2[j], now));
        let mut i: usize = 0;
        proof {
            assert(self@.tasks =~= Seq::new(
                n as nat,
                |j: int|
                    if j < 0 {
                        released(k0.tasks[j], now)
                    } else {
                        k0.tasks[j]
                    },
            ));
            assert(k0.log + release_events(k0.tasks, now, 0) =~= k0.log);
        }
        while i < n
            invariant
                k0.tick_fits(),
                now == k0.now,
                n == k0.tasks.len(),
                i <= n,
                self.tasks.len() == n,
                self@ == (KernelView {
                    tasks: Seq::new(
                        n as nat,
                        |j: int|
                            if j < i {
                                released(k0.tasks[j], now)
                            } else {
                                k0.tasks[j]
                            },
                    ),
                    log: k0.log + release_events(k0.tasks, now, i as int),
                    ..k0
                }),
            decreases n - i,
        {
            let ghost before = self.tasks@;
            assert(before[i as int]@ == k0.tasks[i as int]) by {
                assert(self@.tasks[i as int] == before[i as int]@);
            }
            let due = !self.tasks[i].job_active && self.tasks[i].next_release != u64::MAX
                && now >= self.tasks[i].next_release;
            self.tasks[i].release(now);
            proof {
                lemma_tasks_update(before, i as int, self.tasks@[i as int]);
            }
            if due {
                self.log.push(Event::Release { task: i });
            }
            proof {
                assert(self@.tasks =~= Seq::new(
                    n as nat,
                    |j: int|
                        if j < i + 1 {
                            released(k0.tasks[j], now)
                        } else {
                            k0.tasks[j]
                        },
                ));
                assert(self@.log =~= k0.log + release_events(k0.tasks, now, i + 1));
            }
            i = i + 1;
        }
        assert(self@.tasks =~= t1);
        let ghost k1 = self@;
        i = 0;
        proof {
            assert(self@.tasks =~= Seq::new(n as nat, |j: int| if j < 0 { slept(t1[j], now) } else { t1[j] }));
        }
        while i < n
            invariant
                now == k0.now,
                n == k0.tasks.len(),
                i <= n,
                self.tasks.len() == n,
                t1.len() == n,
                self@ == (KernelView {
                    tasks: Seq::new(n as nat, |j: int| if j < i { slept(t1[j], now) } else { t1[j] }),
                    ..k1
                }),
            decreases n - i,
        {
            let ghost before = self.tasks@;
            assert(before[i as int]@ == t1[i as int]) by {
                assert(self@.tasks[i as int] == before[i as int]@);
            }
            self.tasks[i].wake_if_due(now);
            proof {
                lemma_tasks_update(before, i as int, self.tasks@[i as int]);
                assert(self@.tasks =~= Seq::new(
                    n as nat,
                    |j: int| if j < i + 1 { slept(t1[j], now) } else { t1[j] },
                ));
            }
            i = i + 1;
        }
        assert(self@.tasks =~= t2);
        let ghost k2 = self@;
        i = 0;
        proof {
            assert(self@.tasks =~= Seq::new(
                n as nat,
                |j: int|
                    if j < 0 {
                        deadline_checked(t2[j], now)
                    } else {
                        t2[j]
                    },
            ));
            assert(k2.log + miss_events(t2, now, 0) =~= k2.log);
        }
        while i < n
            invariant
                k0.tick_fits(),
                now == k0.now,
                n == k0.tasks.len(),
                i <= n,
                self.tasks.len() == n,
                t2.len() == n,
                forall|j: int| 0 <= j < n ==> t2[j] == slept(released(k0.tasks[j], now), now),
                self@ == (KernelView {
                    tasks: Seq::new(
                        n as nat,
                        |j: int|
                            if j < i {
                                deadline_checked(t2[j], now)
                            } else {
                                t2[j]
                            },
                    ),
                    log: k2.log + miss_events(t2, now, i as int),
                    ..k2
                }),
            decreases n - i,
        {
            let ghost before = self.tasks@;
            assert(before[i as int]@ == t2[i as int]) by {
                assert(self@.tasks[i as int] == before[i as int]@);
            }
            assert(misses(t2[i as int], now) ==> t2[i as int].deadlines_missed < u64::MAX);
            let deadline = self.tasks[i].deadline;
            let missed = self.tasks[i].check_deadline(now);
            proof {
                lemma_tasks_update(before, i as int, self.tasks@[i as int]);
            }
            if missed {
                self.log.push(Event::DeadlineMiss { task: i, deadline });
            }
            proof {
                assert(self@.tasks =~= Seq::new(
                    n as nat,
                    |j: int|
                        if j < i + 1 {
                            deadline_checked(t2[j], now)
                        } else {
                            t2[j]
                        },
                ));
                assert(self@.log =~= k2.log + miss_events(t2, now, i + 1));
            }
            i = i + 1;
        }
        proof {
            assert(self@.tasks =~= t3);
            assert(self@.log =~= k0.log + release_events(k0.tasks, now, n as int) + miss_events(
                t2,
                now,
                n as int,
            ));
            assert(self@ == k0.ticked());
        }
    }

    /// Advance the clock one tick, cycle the hardware, and service the pending
    /// interrupt lines: the timer line runs the tick ISR.
    fn service(&mut self)
        requires
            old(self)@.wf(),
            old(self)@.step_fits(),
        ensures
            final(self)@ == old(self)@.serviced(),
            final(self)@.wf(),
    {
        let ghost k = self@;
        proof {
            k.lemma_serviced_wf();
        }
        self.now = self.now + 1;
        self.log.push(Event::Tick(self.now));
        self.mcu.cycle();
        let irqs = self.mcu.service_interrupts();
        let ghost k1 = self@;
        assert(k1 == k.clocked());
        let ghost m1 = k.mcu.cycled();
        let mut i: usize = 0;
        let mut ticked = false;
        while i < irqs.len()
            invariant
                i <= irqs.len(),
                m1 == k.mcu.cycled(),
                irqs@.to_set() == m1.nvic.pending.to_set(),
                irqs@.len() == m1.nvic.pending.len(),
                irqs@.no_duplicates(),
                k1 == k.clocked(),
                k1.wf(),
                k.timer_due() ==> k1.tick_fits(),
                ticked == irqs@.take(i as int).contains(Irq::Timer),
                self@ == (if ticked { k1.ticked() } else { k1 }),
            decreases irqs.len() - i,
        {
            proof {
                assert(irqs@.take(i + 1) =~= irqs@.take(i as int).push(irqs@[i as int]));
                if irqs@.take(i as int).contains(Irq::Timer) {
                    let j = choose|j: int| 0 <= j < i && irqs@.take(i as int)[j] == Irq::Timer;
                    assert(irqs@.take(i + 1)[j] == Irq::Timer);
                }
                let nx = irqs@.take(i + 1);
                if nx.contains(Irq::Timer) {
                    let j = choose|j: int| 0 <= j < nx.len() && nx[j] == Irq::Timer;
                    if j < i {
                        assert(irqs@.take(i as int)[j] == Irq::Timer);
                    }
                }
                assert(irqs@.take(i + 1)[i as int] == irqs@[i as int]);
            }
            if irqs[i] == Irq::Timer {
                proof {
                    assert(irqs@.contains(Irq::Timer));
                    assert(irqs@.to_set().contains(Irq::Timer));
                    assert(m1.nvic.pending.contains(Irq::Timer));
                    assert(!irqs@.take(i as int).contains(Irq::Timer)) by {
                        if irqs@.take(i as int).contains(Irq::Timer) {
                            let j = choose|j: int| 0 <= j < i && irqs@.take(i as int)[j] == Irq::Timer;
                            assert(irqs@[j] == irqs@[i as int]);
                        }
                    }
                }
                self.on_tick();
                ticked = true;
            }
            i = i + 1;
        }
        proof {
            assert(irqs@.take(irqs@.len() as int) =~= irqs@);
            if m1.nvic.pending.contains(Irq::Timer) {
                assert(m1.nvic.pending.to_set().contains(Irq::Timer));
                assert(irqs@.to_set().contains(Irq::Timer));
            }
            if irqs@.contains(Irq::Timer) {
                assert(irqs@.to_set().contains(Irq::Timer));
                assert(m1.nvic.pending.to_set().contains(Irq::Timer));
            }
        }
    }

    /// The ready set at this scheduling decision, in task order.
    fn ready_snapshot(&self) -> (r: Vec<ReadyEntry>)
        ensures
            r@ == ready_entries(self@.tasks, self@.tasks.len() as int),
    {
        let mut r: Vec<ReadyEntry> = Vec::new();
        let mut i: usize = 0;
        while i < self.tasks.len()
            invariant
                i <= self.tasks.len(),
                self@.tasks.len() == self.tasks.len(),
                r@ == ready_entries(self@.tasks, i as int),
            decreases self.tasks.len() - i,
        {
            assert(self@.tasks[i as int] == self.tasks@[i as int]@);
            let t = &self.tasks[i];
            if t.state == TaskState::Ready || t.state == TaskState::Running {
                r.push(ReadyEntry { id: t.id, base: t.base_priority, eff: t.eff_priority });
            }
            i = i + 1;
        }
        r
    }

    /// Highest effective priority among ready and running tasks, ties broken by the
    /// lowest task id for determinism.
    fn pick(&self) -> (r: Option<usize>)
        requires
            self@.wf(),
        ensures
            r == picked(self@.tasks),
    {
        let ghost ts = self@.tasks;
        let mut best: Option<usize> = None;
        let mut i: usize = 0;
        while i < self.tasks.len()
            invariant
                i <= self.tasks.len(),
                ts == self@.tasks,
                ts.len() == self.tasks.len(),
                self@.wf(),
                best == pick_prefix(ts, i as int),
                best matches Some(b) ==> b < i,
            decreases self.tasks.len() - i,
        {
            assert(ts[i as int] == self.tasks@[i as int]@);
            assert(self@.task_ok(i as int));
            let t = &self.tasks[i];
            if t.state == TaskState::Ready || t.state == TaskState::Running {
                match best {
                    None => {
                        best = Some(t.id);
                    },
                    Some(b) => {
                        assert(ts[b as int] == self.tasks@[b as int]@);
                        let bp = self.tasks[b].eff_priority;
                        if t.eff_priority > bp || (t.eff_priority == bp && t.id < b) {
                            best = Some(t.id);
                        }
                    },
                }
            }
            i = i + 1;
        }
        proof {
            lemma_pick_prefix_full(ts);
        }
        best
    }

    /// Run one tick: the timer raises its interrupt, the tick ISR releases due jobs
    /// and wakes sleepers, the scheduler picks the highest-priority ready task (the
    /// decision is recorded), and that task runs one quantum.
    pub fn step(&mut self)
        requires
            old(self)@.wf(),
            old(self)@.step_fits(),
        ensures
            final(self)@ == old(self)@.stepped(),
            final(self)@.wf(),
    {
        let ghost k0 = self@;
        self.service();
        let ghost k = self@;
        let ready = self.ready_snapshot();
        let chosen = self.pick();
        let mut top: u8 = 0;
        let mut i: usize = 0;
        while i < ready.len()
            invariant
                i <= ready.len(),
                top == max_eff(ready@.take(i as int)),
            decreases ready.len() - i,
        {
            proof {
                assert(ready@.take(i + 1).drop_last() =~= ready@.take(i as int));
            }
            if ready[i].eff > top {
                top = ready[i].eff;
            }
            i = i + 1;
        }
        proof {
            assert(ready@.take(ready@.len() as int) =~= ready@);
            k.lemma_recorded_wf();
            law_pick_is_highest_ready(k.tasks);
            assert forall|j: int| 0 <= j < k.tasks.len() implies k.tasks[j].id == j by {
                assert(k.task_ok(j));
            }
            law_pick_carries_top_priority(k.tasks);
        }
        let ghost rs = ready@;
        let ghost before = self.records@;
        let rec = TickRecord { tick: self.now, ran: chosen, ready };
        self.records.push(rec);
        proof {
            lemma_records_push(before, rec);
        }
        assert(self@ == k.recorded());
        match chosen {
            None => {
                let ghost kr = self@;
                self.running = None;
                self.idle_ticks = self.idle_ticks + 1;
                self.log.push(Event::Idle);
                proof {
                    kr.lemma_wf_same_structure(self@);
                }
            },
            Some(tid) => {
                let ghost kr = self@;
                proof {
                    assert(kr.tasks == k.tasks);
                    kr.lemma_dispatch_prep_wf(tid, top);
                }
                assert(self@.tasks[tid as int] == self.tasks@[tid as int]@);
                if self.tasks[tid].eff_priority < top {
                    self.invariant_violations = self.invariant_violations + 1;
                }
                match self.running {
                    Some(prev) => {
                        proof {
                            assert(kr.running == Some(prev));
                        }
                        assert(self@.tasks[prev as int] == self.tasks@[prev as int]@);
                        if prev != tid && self.tasks[prev].state == TaskState::Running {
                            let ghost tb = self.tasks@;
                            self.tasks[prev].state = TaskState::Ready;
                            self.tasks[prev].preemptions = self.tasks[prev].preemptions + 1;
                            proof {
                                assert(self.tasks@ =~= tb.update(prev as int, self.tasks@[prev as int]));
                                lemma_tasks_update(tb, prev as int, self.tasks@[prev as int]);
                            }
                            self.log.push(Event::Preempt { preempted: prev, by: tid });
                        }
                    },
                    None => {},
                }
                self.running = Some(tid);
                let ghost tb = self.tasks@;
                self.tasks[tid].state = TaskState::Running;
                proof {
                    lemma_tasks_update(tb, tid as int, self.tasks@[tid as int]);
                }
                self.log.push(Event::Run { task: tid });
                assert(self@ == kr.dispatch_prep(tid, top));
                self.run_quantum(tid);
            },
        }
    }

    /// Run `ticks` ticks.
    pub fn run(&mut self, ticks: u64)
        requires
            old(self)@.wf(),
            old(self)@.run_fits(ticks as nat),
        ensures
            final(self)@ == old(self)@.run_for(ticks as nat),
            final(self)@.wf(),
    {
        let mut i: u64 = 0;
        while i < ticks
            invariant
                i <= ticks,
                self@.wf(),
                self@.run_fits((ticks - i) as nat),
                self@.run_for((ticks - i) as nat) == old(self)@.run_for(ticks as nat),
            decreases ticks - i,
        {
            self.step();
            i = i + 1;
        }
    }
}

} // verus!
