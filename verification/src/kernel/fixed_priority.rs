//! With priority inheritance switched off, the kernel is a plain fixed-priority
//! scheduler: no task's effective priority ever moves and no boost or restore is
//! ever logged.
use vstd::prelude::*;
use crate::kernel::{Event, KernelView};
use crate::kernel::model::{max_eff, miss_events, picked, ready_entries, release_events};
use crate::kernel::task::{Op, TaskState, TaskView};

verus! {

/// An event that boosts or restores a priority.
pub open spec fn is_boost(e: Event) -> bool {
    e is Inherit || e is Restore
}

/// None of the events of `es` boosts or restores a priority.
pub open spec fn boost_free(es: Seq<Event>) -> bool {
    forall|i: int| 0 <= i < es.len() ==> !is_boost(#[trigger] es[i])
}

/// `k2` follows `k` with the same configuration and tasks at the same base and
/// effective priorities, having logged no boost or restore.
pub open spec fn priorities_kept(k: KernelView, k2: KernelView) -> bool {
    &&& k2.config == k.config
    &&& k2.tasks.len() == k.tasks.len()
    &&& forall|i: int|
        0 <= i < k.tasks.len() ==> #[trigger] k2.tasks[i].eff_priority == k.tasks[i].eff_priority
            && k2.tasks[i].base_priority == k.tasks[i].base_priority
    &&& k.log.len() <= k2.log.len()
    &&& k2.log.take(k.log.len() as int) == k.log
    &&& boost_free(k2.log.skip(k.log.len() as int))
}

proof fn lemma_kept_leaf(k: KernelView, k2: KernelView, es: Seq<Event>)
    requires
        k2.config == k.config,
        k2.tasks.len() == k.tasks.len(),
        forall|i: int|
            0 <= i < k.tasks.len() ==> #[trigger] k2.tasks[i].eff_priority == k.tasks[i].eff_priority
                && k2.tasks[i].base_priority == k.tasks[i].base_priority,
        k2.log == k.log + es,
        boost_free(es),
    ensures
        priorities_kept(k, k2),
{
    assert(k2.log.take(k.log.len() as int) =~= k.log);
    assert(k2.log.skip(k.log.len() as int) =~= es);
}

proof fn lemma_kept_event(k: KernelView, k2: KernelView, e: Event)
    requires
        k2.config == k.config,
        k2.tasks.len() == k.tasks.len(),
        forall|i: int|
            0 <= i < k.tasks.len() ==> #[trigger] k2.tasks[i].eff_priority == k.tasks[i].eff_priority
                && k2.tasks[i].base_priority == k.tasks[i].base_priority,
        k2.log == k.log.push(e),
        !is_boost(e),
    ensures
        priorities_kept(k, k2),
{
    assert(k.log.push(e) =~= k.log + seq![e]);
    lemma_kept_leaf(k, k2, seq![e]);
}

proof fn lemma_kept_silent(k: KernelView, k2: KernelView)
    requires
        k2.config == k.config,
        k2.tasks.len() == k.tasks.len(),
        forall|i: int|
            0 <= i < k.tasks.len() ==> #[trigger] k2.tasks[i].eff_priority == k.tasks[i].eff_priority
                && k2.tasks[i].base_priority == k.tasks[i].base_priority,
        k2.log == k.log,
    ensures
        priorities_kept(k, k2),
{
    assert(k.log + Seq::<Event>::empty() =~= k.log);
    lemma_kept_leaf(k, k2, Seq::empty());
}

proof fn lemma_kept_chain(k1: KernelView, k2: KernelView, k3: KernelView)
    requires
        priorities_kept(k1, k2),
        priorities_kept(k2, k3),
    ensures
        priorities_kept(k1, k3),
{
    let a = k2.log.skip(k1.log.len() as int);
    let b = k3.log.skip(k2.log.len() as int);
    assert(k2.log =~= k1.log + a);
    assert(k3.log =~= k2.log + b);
    assert(k3.log.take(k1.log.len() as int) =~= k1.log);
    assert(k3.log.skip(k1.log.len() as int) =~= a + b);
    assert forall|i: int| 0 <= i < (a + b).len() implies !is_boost(#[trigger] (a + b)[i]) by {
        if i < a.len() {
            assert((a + b)[i] == a[i]);
        } else {
            assert((a + b)[i] == b[i - a.len()]);
        }
    }
}

/// One iteration of a quantum, with inheritance off, keeps every priority.
proof fn lemma_op_step_kept(k: KernelView, tid: usize)
    requires
        k.wf(),
        tid < k.tasks.len(),
        !k.config.priority_inheritance,
    ensures
        priorities_kept(k, k.op_step(tid).0),
{
    let t = k.tasks[tid as int];
    let k2 = k.op_step(tid).0;
    match t.current_op() {
        None => {
            lemma_kept_event(k, k2, Event::Complete { task: tid });
        },
        Some(op) => match op {
            Op::Compute(n) => {
                let cr = if t.compute_remaining == 0 { n } else { t.compute_remaining };
                let t2 = TaskView { compute_remaining: (cr - 1) as u64, cpu_ticks: (t.cpu_ticks + 1) as u64, ..t };
                let t3 = t2.advanced();
                if cr != 0 && cr == 1 && t3.pc >= t3.program.len() {
                    lemma_kept_event(k, k2, Event::Complete { task: tid });
                } else {
                    lemma_kept_silent(k, k2);
                }
            },
            Op::Delay(n) => {
                if n == 0 {
                    lemma_kept_silent(k, k2);
                } else {
                    lemma_kept_event(k, k2, k2.log.last());
                }
            },
            Op::GpioSet(pin, level) => {
                lemma_kept_event(k, k2, Event::Gpio { task: tid, pin, level });
            },
            Op::GpioToggle(pin) => {
                lemma_kept_event(k, k2, k2.log.last());
            },
            Op::Uart(text) => {
                lemma_kept_event(k, k2, Event::Uart { task: tid, text });
            },
            Op::Lock(m) => {
                lemma_kept_event(k, k2, k2.log.last());
            },
            Op::Unlock(m) => {
                let mx = k.mutexes[m as int];
                let (mv, next) = mx.released(tid, crate::kernel::select::ranks_of(mx.waiters, k.eff_table()));
                match next {
                    Some(w) => {
                        assert(k.task_ok(tid as int));
                        assert(crate::kernel::wellformed::op_valid(t.program[t.pc as int], k.mutexes.len(), k.semaphores.len(), k.queues.len()));
                        assert(k.mutex_ok(m as int));
                        let prios = crate::kernel::select::ranks_of(mx.waiters, k.eff_table());
                        crate::kernel::select::lemma_choice_exists(mx.waiters, prios);
                        let b = crate::kernel::select::choice(mx.waiters, prios);
                        assert(k.waiter_ok(mx.waiters[b], crate::kernel::BlockReason::Mutex(m)));
                        let e1 = Event::Unlock { task: tid, mutex: m };
                        let e2 = Event::Lock { task: w, mutex: m };
                        assert(k2.log =~= k.log + seq![e1, e2]);
                        lemma_kept_leaf(k, k2, seq![e1, e2]);
                    },
                    None => {
                        lemma_kept_event(k, k2, Event::Unlock { task: tid, mutex: m });
                    },
                }
            },
            Op::SemWait(s) => {
                lemma_kept_event(k, k2, k2.log.last());
            },
            Op::SemSignal(s) => {
                let sv = k.semaphores[s as int];
                let (sv2, woken) = sv.signaled(crate::kernel::select::ranks_of(sv.waiters, k.eff_table()));
                match woken {
                    Some(w) => {
                        assert(k.task_ok(tid as int));
                        assert(crate::kernel::wellformed::op_valid(t.program[t.pc as int], k.mutexes.len(), k.semaphores.len(), k.queues.len()));
                        assert(k.sem_ok(s as int));
                        let prios = crate::kernel::select::ranks_of(sv.waiters, k.eff_table());
                        crate::kernel::select::lemma_choice_exists(sv.waiters, prios);
                        let b = crate::kernel::select::choice(sv.waiters, prios);
                        assert(k.waiter_ok(sv.waiters[b], crate::kernel::BlockReason::Semaphore(s)));
                        let e1 = Event::SemSignal { task: tid, sem: s };
                        let e2 = Event::SemWait { task: w, sem: s };
                        assert(k2.log =~= k.log + seq![e1, e2]);
                        lemma_kept_leaf(k, k2, seq![e1, e2]);
                    },
                    None => {
                        lemma_kept_event(k, k2, Event::SemSignal { task: tid, sem: s });
                    },
                }
            },
            Op::QueueSend(q, v) => {
                assert(k.task_ok(tid as int));
                assert(crate::kernel::wellformed::op_valid(t.program[t.pc as int], k.mutexes.len(), k.semaphores.len(), k.queues.len()));
                assert(k.queue_ok(q as int));
                let qv = k.queues[q as int];
                let k1 = k.set_queue(q, qv.after_send(v).0).set_task(tid, t.advanced()).logged(
                    Event::QueueSend { task: tid, queue: q, value: v },
                );
                let ws = qv.recv_waiters;
                if ws.len() > 0 {
                    let prios = crate::kernel::select::ranks_of(ws, k1.eff_table());
                    crate::kernel::select::lemma_choice_exists(ws, prios);
                    let b = crate::kernel::select::choice(ws, prios);
                    assert(ws[b] < k.tasks.len());
                }
                lemma_kept_event(k, k2, k2.log.last());
            },
            Op::QueueRecv(q) => {
                assert(k.task_ok(tid as int));
                assert(crate::kernel::wellformed::op_valid(t.program[t.pc as int], k.mutexes.len(), k.semaphores.len(), k.queues.len()));
                assert(k.queue_ok(q as int));
                let qv = k.queues[q as int];
                let ws = qv.send_waiters;
                if qv.buf.len() > 0 && ws.len() > 0 {
                    let k1 = k.set_queue(q, qv.after_recv().0).set_task(tid, t.advanced()).logged(
                        Event::QueueRecv { task: tid, queue: q, value: qv.buf[0] },
                    );
                    let prios = crate::kernel::select::ranks_of(ws, k1.eff_table());
                    crate::kernel::select::lemma_choice_exists(ws, prios);
                    let b = crate::kernel::select::choice(ws, prios);
                    assert(ws[b] < k.tasks.len());
                }
                lemma_kept_event(k, k2, k2.log.last());
            },
        },
    }
}

/// A quantum, with inheritance off, keeps every priority.
proof fn lemma_quantum_kept(k: KernelView, tid: usize)
    requires
        k.wf(),
        tid < k.tasks.len(),
        k.tasks[tid as int].state == TaskState::Running,
        !k.config.priority_inheritance,
    ensures
        priorities_kept(k, k.quantum(tid)),
    decreases k.ops_left(tid),
{
    let (k1, go_on) = k.op_step(tid);
    lemma_op_step_kept(k, tid);
    k.lemma_op_step(tid);
    if go_on && k.makes_progress(k1, tid) {
        lemma_quantum_kept(k1, tid);
        lemma_kept_chain(k, k1, k1.quantum(tid));
    }
}

proof fn lemma_release_events_free(ts: Seq<TaskView>, now: u64, n: int)
    ensures
        boost_free(release_events(ts, now, n)),
    decreases n,
{
    if n > 0 {
        lemma_release_events_free(ts, now, n - 1);
    }
}

proof fn lemma_miss_events_free(ts: Seq<TaskView>, now: u64, n: int)
    ensures
        boost_free(miss_events(ts, now, n)),
    decreases n,
{
    if n > 0 {
        lemma_miss_events_free(ts, now, n - 1);
    }
}

/// One tick, with inheritance off, keeps every priority.
proof fn lemma_stepped_kept(k: KernelView)
    requires
        k.wf(),
        !k.config.priority_inheritance,
    ensures
        priorities_kept(k, k.stepped()),
{
    let k1 = k.clocked();
    lemma_kept_event(k, k1, Event::Tick((k.now + 1) as u64));
    let ks = k.serviced();
    if k.timer_due() {
        let n = k1.tasks.len();
        let now = k1.now;
        let t1 = Seq::new(n, |i: int| crate::kernel::model::released(k1.tasks[i], now));
        let t2 = Seq::new(n, |i: int| crate::kernel::model::slept(t1[i], now));
        let a = release_events(k1.tasks, now, n as int);
        let b = miss_events(t2, now, n as int);
        lemma_release_events_free(k1.tasks, now, n as int);
        lemma_miss_events_free(t2, now, n as int);
        assert forall|i: int| 0 <= i < (a + b).len() implies !is_boost(#[trigger] (a + b)[i]) by {
            if i < a.len() {
                assert((a + b)[i] == a[i]);
            } else {
                assert((a + b)[i] == b[i - a.len()]);
            }
        }
        assert(ks.log =~= k1.log + (a + b));
        lemma_kept_leaf(k1, ks, a + b);
        lemma_kept_chain(k, k1, ks);
    }
    k.lemma_serviced_wf();
    let kr = ks.recorded();
    lemma_kept_silent(ks, kr);
    lemma_kept_chain(k, ks, kr);
    ks.lemma_recorded_wf();
    match picked(ks.tasks) {
        None => {
            lemma_kept_event(kr, k.stepped(), Event::Idle);
            lemma_kept_chain(k, kr, k.stepped());
        },
        Some(tid) => {
            crate::kernel::laws::law_pick_is_highest_ready(ks.tasks);
            let top = max_eff(ready_entries(ks.tasks, ks.tasks.len() as int));
            let kd = kr.dispatch_prep(tid, top);
            let k1p = if kr.tasks[tid as int].eff_priority < top {
                KernelView { invariant_violations: (kr.invariant_violations + 1) as u64, ..kr }
            } else {
                kr
            };
            let k2p = match kr.running {
                Some(prev) => if prev != tid && k1p.tasks[prev as int].state == TaskState::Running {
                    let tp = k1p.tasks[prev as int];
                    k1p.set_task(prev, TaskView { state: TaskState::Ready, preemptions: (tp.preemptions + 1) as u64, ..tp }).logged(
                        Event::Preempt { preempted: prev, by: tid },
                    )
                } else {
                    k1p
                },
                None => k1p,
            };
            if k2p.log == kr.log {
                lemma_kept_silent(kr, k2p);
            } else {
                lemma_kept_event(kr, k2p, Event::Preempt { preempted: kr.running->Some_0, by: tid });
            }
            lemma_kept_event(k2p, kd, Event::Run { task: tid });
            lemma_kept_chain(kr, k2p, kd);
            kr.lemma_dispatch_prep_wf(tid, top);
            lemma_quantum_kept(kd, tid);
            lemma_kept_chain(kr, kd, kd.quantum(tid));
            lemma_kept_chain(k, kr, kd.quantum(tid));
        },
    }
}

/// With priority inheritance switched off, a run of a well-formed kernel keeps
/// every task at the effective (and base) priority it had, and logs no boost and
/// no restore: mutexes give mutual exclusion and nothing more.
pub proof fn law_no_boost_without_inheritance(k: KernelView, n: nat)
    requires
        k.wf(),
        !k.config.priority_inheritance,
    ensures
        priorities_kept(k, k.run_for(n)),
    decreases n,
{
    if n == 0 {
        lemma_kept_silent(k, k);
    } else {
        lemma_stepped_kept(k);
        crate::kernel::accounting::lemma_stepped_balanced(k);
        law_no_boost_without_inheritance(k.stepped(), (n - 1) as nat);
        lemma_kept_chain(k, k.stepped(), k.stepped().run_for((n - 1) as nat));
    }
}

} // verus!
