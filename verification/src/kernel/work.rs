//! A job costs exactly its worst-case execution time: the CPU ticks a task has
//! used are always its completed jobs' budgets plus the progress of its current
//! job, so a task between jobs has used exactly one budget per completed job.
use vstd::prelude::*;
use crate::kernel::{BlockReason, Event, KernelView, Op, TaskState, TaskView};
use crate::kernel::model::{count_below, deadline_checked, max_eff, picked, ready_entries, released, slept};
use crate::kernel::task::{budget, op_cost};

verus! {

/// The CPU ticks the current job of `t` has used: the budget of the operations
/// before its program counter, plus the ticks spent so far in the compute step at
/// it.
pub open spec fn job_progress(t: TaskView) -> int {
    budget(t.program.take(t.pc as int)) + if t.compute_remaining > 0 {
        t.program[t.pc as int]->Compute_0 - t.compute_remaining
    } else {
        0
    }
}

/// `t` waits on a mutex or a semaphore.
pub open spec fn waits_on_object(t: TaskView) -> bool {
    match t.blocked_on {
        Some(BlockReason::Mutex(_)) => true,
        Some(BlockReason::Semaphore(_)) => true,
        _ => false,
    }
}

/// `t` has used exactly one budget per completed job plus its current job's
/// progress; a compute step in progress is the operation at its program counter;
/// a task between jobs sits at the top of its program; and a task waiting on a
/// mutex or a semaphore waits at an operation that costs no CPU.
pub open spec fn work_accounted(t: TaskView) -> bool {
    &&& t.cpu_ticks == t.jobs_completed * budget(t.program) + job_progress(t)
    &&& (t.compute_remaining > 0 ==> t.pc < t.program.len() && t.program[t.pc as int] is Compute
        && t.compute_remaining < t.program[t.pc as int]->Compute_0)
    &&& (!t.job_active ==> t.pc == 0 && t.compute_remaining == 0)
    &&& (waits_on_object(t) ==> t.pc < t.program.len() && op_cost(t.program[t.pc as int]) == 0
        && t.compute_remaining == 0)
}

/// Every task of `k` has its work accounted for.
pub open spec fn all_accounted(k: KernelView) -> bool {
    forall|i: int| 0 <= i < k.tasks.len() ==> work_accounted(#[trigger] k.tasks[i])
}

/// The fields the accounting reads are those of `t`.
pub open spec fn same_work(t: TaskView, u: TaskView) -> bool {
    &&& u.cpu_ticks == t.cpu_ticks
    &&& u.jobs_completed == t.jobs_completed
    &&& u.program == t.program
    &&& u.pc == t.pc
    &&& u.compute_remaining == t.compute_remaining
    &&& u.job_active == t.job_active
    &&& u.blocked_on == t.blocked_on
}

/// The budget of a prefix grows by the cost of the next operation.
proof fn lemma_budget_step(p: Seq<Op>, i: int)
    requires
        0 <= i < p.len(),
    ensures
        budget(p.take(i + 1)) == budget(p.take(i)) + op_cost(p[i]),
{
    assert(p.take(i + 1).drop_last() =~= p.take(i));
}

proof fn lemma_budget_whole(p: Seq<Op>)
    ensures
        budget(p.take(p.len() as int)) == budget(p),
{
    assert(p.take(p.len() as int) =~= p);
}

/// A task moved past an operation that costs no CPU, and otherwise the same for
/// the accounting, stays accounted for.
proof fn lemma_advance_free(t: TaskView, u: TaskView)
    requires
        work_accounted(t),
        t.pc < t.program.len(),
        op_cost(t.program[t.pc as int]) == 0,
        t.compute_remaining == 0,
        u.cpu_ticks == t.cpu_ticks,
        u.jobs_completed == t.jobs_completed,
        u.program == t.program,
        u.pc == t.pc + 1,
        u.compute_remaining == 0,
        u.job_active,
        !waits_on_object(u),
    ensures
        work_accounted(u),
{
    lemma_budget_step(t.program, t.pc as int);
}

/// A task parked at an operation that costs no CPU, and otherwise the same for the
/// accounting, stays accounted for.
proof fn lemma_parked_here(t: TaskView, u: TaskView)
    requires
        work_accounted(t),
        t.pc < t.program.len(),
        op_cost(t.program[t.pc as int]) == 0,
        t.compute_remaining == 0,
        u.cpu_ticks == t.cpu_ticks,
        u.jobs_completed == t.jobs_completed,
        u.program == t.program,
        u.pc == t.pc,
        u.compute_remaining == 0,
        u.job_active == t.job_active,
    ensures
        work_accounted(u),
{
}

/// The inheritance walk changes only effective priorities.
proof fn lemma_inherited_work(k: KernelView, x: usize)
    ensures
        k.inherited(x).tasks.len() == k.tasks.len(),
        forall|i: int| 0 <= i < k.tasks.len() ==> same_work(k.tasks[i], #[trigger] k.inherited(x).tasks[i]),
    decreases count_below(k.tasks, k.tasks[x as int].eff_priority),
{
    let boosts = x < k.tasks.len() && match k.tasks[x as int].blocked_on {
        Some(BlockReason::Mutex(mid)) => mid < k.mutexes.len() && match k.mutexes[mid as int].owner {
            Some(o) => o < k.tasks.len() && k.tasks[x as int].eff_priority > k.tasks[o as int].eff_priority,
            None => false,
        },
        _ => false,
    };
    if boosts {
        let mid = k.tasks[x as int].blocked_on->Some_0->Mutex_0;
        let o = k.mutexes[mid as int].owner->Some_0;
        let want = k.tasks[x as int].eff_priority;
        let e = Event::Inherit { holder: o, boosted_to: want, waiter: x };
        let k1 = k.set_task(o, k.tasks[o as int].with_eff(want)).logged(e);
        assert(k.inherited(x) == k1.inherited(o));
        crate::kernel::model::lemma_count_below_raise(k.tasks, o as int, k.tasks[o as int].with_eff(want), want);
        lemma_inherited_work(k1, o);
    }
}

proof fn lemma_one_more_job(c: int, w: int)
    ensures
        (c + 1) * w == c * w + w,
{
    assert((c + 1) * w == c * w + w) by (nonlinear_arith);
}

/// All tasks but `a` and `b` are the same for the accounting.
pub open spec fn others_same(k: KernelView, k2: KernelView, a: int, b: int) -> bool {
    &&& k2.tasks.len() == k.tasks.len()
    &&& forall|i: int| 0 <= i < k.tasks.len() && i != a && i != b ==> same_work(k.tasks[i], #[trigger] k2.tasks[i])
}

proof fn lemma_collect(k: KernelView, k2: KernelView, a: int, b: int)
    requires
        all_accounted(k),
        others_same(k, k2, a, b),
        0 <= a < k.tasks.len() ==> work_accounted(k2.tasks[a]),
        0 <= b < k.tasks.len() ==> work_accounted(k2.tasks[b]),
    ensures
        all_accounted(k2),
{
    assert forall|i: int| 0 <= i < k2.tasks.len() implies work_accounted(#[trigger] k2.tasks[i]) by {
        if i != a && i != b {
            assert(work_accounted(k.tasks[i]));
            assert(same_work(k.tasks[i], k2.tasks[i]));
        }
    }
}

/// The conditions every per-operation lemma below starts from.
pub open spec fn op_ready(k: KernelView, tid: usize, op: Op) -> bool {
    &&& k.wf()
    &&& all_accounted(k)
    &&& tid < k.tasks.len()
    &&& k.tasks[tid as int].state == TaskState::Running
    &&& k.op_fits(tid)
    &&& k.tasks[tid as int].current_op() == Some(op)
}

proof fn lemma_setup(k: KernelView, tid: usize, op: Op)
    requires
        op_ready(k, tid, op),
    ensures
        work_accounted(k.tasks[tid as int]),
        k.tasks[tid as int].job_active,
        k.tasks[tid as int].blocked_on is None,
        k.tasks[tid as int].pc < k.tasks[tid as int].program.len(),
        k.tasks[tid as int].program.len() <= usize::MAX,
        crate::kernel::wellformed::op_valid(op, k.mutexes.len(), k.semaphores.len(), k.queues.len()),
        budget(k.tasks[tid as int].program.take(k.tasks[tid as int].pc + 1)) == budget(
            k.tasks[tid as int].program.take(k.tasks[tid as int].pc as int),
        ) + op_cost(op),
{
    let t = k.tasks[tid as int];
    assert(k.task_ok(tid as int));
    assert(crate::kernel::wellformed::op_valid(t.program[t.pc as int], k.mutexes.len(), k.semaphores.len(), k.queues.len()));
    lemma_budget_step(t.program, t.pc as int);
}

proof fn lemma_compute_work(k: KernelView, tid: usize, n: u64)
    requires
        op_ready(k, tid, Op::Compute(n)),
    ensures
        all_accounted(k.op_step(tid).0),
{
    lemma_setup(k, tid, Op::Compute(n));
    let t = k.tasks[tid as int];
    let k2 = k.op_step(tid).0;
    let u = k2.tasks[tid as int];
    let cr = if t.compute_remaining == 0 { n } else { t.compute_remaining };
    let before = budget(t.program.take(t.pc as int));
    if cr == 0 {
        assert(u == TaskView { compute_remaining: 0, ..t }.advanced());
        lemma_advance_free(t, u);
    } else {
        let t2 = TaskView { compute_remaining: (cr - 1) as u64, cpu_ticks: (t.cpu_ticks + 1) as u64, ..t };
        assert(t.cpu_ticks == t.jobs_completed * budget(t.program) + before + (n - cr));
        if cr == 1 {
            let t3 = t2.advanced();
            assert(t3.cpu_ticks == t.jobs_completed * budget(t.program) + budget(t.program.take(t.pc + 1)));
            if t3.pc >= t3.program.len() {
                assert(u == t3.finished());
                assert(t.pc + 1 == t.program.len());
                lemma_budget_whole(t.program);
                lemma_one_more_job(t.jobs_completed as int, budget(t.program) as int);
                assert(u.program.take(0) =~= Seq::<Op>::empty());
                assert(work_accounted(u));
            } else {
                assert(u == t3);
                assert(work_accounted(u));
            }
        } else {
            assert(u == t2);
            assert(work_accounted(u));
        }
    }
    lemma_collect(k, k2, tid as int, tid as int);
}

proof fn lemma_lock_work(k: KernelView, tid: usize, m: usize)
    requires
        op_ready(k, tid, Op::Lock(m)),
    ensures
        all_accounted(k.op_step(tid).0),
{
    lemma_setup(k, tid, Op::Lock(m));
    let t = k.tasks[tid as int];
    let mx = k.mutexes[m as int];
    let k2 = k.op_step(tid).0;
    if mx.owner is Some {
        let e = Event::BlockOnMutex { task: tid, mutex: m, owner: mx.owner->Some_0 };
        let k1 = k.set_mutex(m, mx.with_waiter(tid)).set_task(tid, t.parked(BlockReason::Mutex(m))).idle_cpu().logged(e);
        lemma_parked_here(t, k1.tasks[tid as int]);
        lemma_collect(k, k1, tid as int, tid as int);
        if k.config.priority_inheritance {
            lemma_inherited_work(k1, tid);
            lemma_collect(k1, k2, -1, -1);
        }
    } else {
        assert(k2.tasks[tid as int] == TaskView { held_mutexes: t.held_mutexes.push(m), ..t }.advanced());
        lemma_advance_free(t, k2.tasks[tid as int]);
        lemma_collect(k, k2, tid as int, tid as int);
    }
}

proof fn lemma_unlock_work(k: KernelView, tid: usize, m: usize)
    requires
        op_ready(k, tid, Op::Unlock(m)),
    ensures
        all_accounted(k.op_step(tid).0),
{
    lemma_setup(k, tid, Op::Unlock(m));
    let t = k.tasks[tid as int];
    let k2 = k.op_step(tid).0;
    k.lemma_unlock_wf(tid, m);
    let mx = k.mutexes[m as int];
    let prios = crate::kernel::select::ranks_of(mx.waiters, k.eff_table());
    let (mv, next) = mx.released(tid, prios);
    let k1 = k.set_mutex(m, mv).set_task(
        tid,
        TaskView { held_mutexes: crate::kernel::model::without_value(t.held_mutexes, m), ..t }.advanced(),
    ).logged(Event::Unlock { task: tid, mutex: m });
    lemma_advance_free(t, k1.tasks[tid as int]);
    lemma_collect(k, k1, tid as int, tid as int);
    let pi = k.config.priority_inheritance;
    let kr = if pi { k1.recomputed(tid) } else { k1 };
    lemma_collect(k1, kr, -1, -1);
    match next {
        Some(w) => {
            let tw = kr.tasks[w as int];
            let k3 = kr.set_task(
                w,
                TaskView { held_mutexes: tw.held_mutexes.push(m), ..tw }.woken_up().advanced(),
            ).logged(Event::Lock { task: w, mutex: m });
            assert(k1.tasks[w as int] == k.tasks[w as int]);
            assert(work_accounted(k.tasks[w as int]));
            assert(k.task_ok(w as int));
            lemma_budget_step(tw.program, tw.pc as int);
            lemma_advance_free(tw, k3.tasks[w as int]);
            lemma_collect(kr, k3, w as int, w as int);
            if pi {
                lemma_collect(k3, k2, -1, -1);
            }
        },
        None => {},
    }
}

/// A task whose wait ends, and otherwise the same for the accounting, stays
/// accounted for.
proof fn lemma_unblocked(t: TaskView, u: TaskView)
    requires
        work_accounted(t),
        u.cpu_ticks == t.cpu_ticks,
        u.jobs_completed == t.jobs_completed,
        u.program == t.program,
        u.pc == t.pc,
        u.compute_remaining == t.compute_remaining,
        u.job_active == t.job_active,
        !waits_on_object(u),
    ensures
        work_accounted(u),
{
}

proof fn lemma_sem_signal_work(k: KernelView, tid: usize, sm: usize)
    requires
        op_ready(k, tid, Op::SemSignal(sm)),
    ensures
        all_accounted(k.op_step(tid).0),
{
    lemma_setup(k, tid, Op::SemSignal(sm));
    let t = k.tasks[tid as int];
    let k2 = k.op_step(tid).0;
    let sv = k.semaphores[sm as int];
    let prios = crate::kernel::select::ranks_of(sv.waiters, k.eff_table());
    let (sv2, woken) = sv.signaled(prios);
    let k1 = k.set_semaphore(sm, sv2).set_task(tid, t.advanced()).logged(
        Event::SemSignal { task: tid, sem: sm },
    );
    lemma_advance_free(t, k1.tasks[tid as int]);
    match woken {
        Some(w) => {
            assert(k.sem_ok(sm as int));
            crate::kernel::select::lemma_choice_exists(sv.waiters, prios);
            let b = crate::kernel::select::choice(sv.waiters, prios);
            assert(w == sv.waiters[b]);
            assert(k.waiter_ok(sv.waiters[b], BlockReason::Semaphore(sm)));
            assert(w != tid);
            let tw = k.tasks[w as int];
            assert(work_accounted(tw));
            assert(k.task_ok(w as int));
            assert(k1.tasks[w as int] == tw);
            assert(k2.tasks[w as int] == tw.woken_up().advanced());
            assert(k2.tasks[tid as int] == k1.tasks[tid as int]);
            lemma_advance_free(tw, k2.tasks[w as int]);
            lemma_collect(k, k2, tid as int, w as int);
        },
        None => {
            lemma_collect(k, k2, tid as int, tid as int);
        },
    }
}

proof fn lemma_queue_send_work(k: KernelView, tid: usize, q: usize, v: u32)
    requires
        op_ready(k, tid, Op::QueueSend(q, v)),
    ensures
        all_accounted(k.op_step(tid).0),
{
    lemma_setup(k, tid, Op::QueueSend(q, v));
    let t = k.tasks[tid as int];
    let k2 = k.op_step(tid).0;
    assert(k.queue_ok(q as int));
    let qv = k.queues[q as int];
    let ws = qv.recv_waiters;
    if qv.is_full() {
        lemma_parked_here(t, k2.tasks[tid as int]);
        lemma_collect(k, k2, tid as int, tid as int);
    } else {
        let k1 = k.set_queue(q, qv.after_send(v).0).set_task(tid, t.advanced()).logged(
            Event::QueueSend { task: tid, queue: q, value: v },
        );
        lemma_advance_free(t, k1.tasks[tid as int]);
        if ws.len() > 0 {
            let prios = crate::kernel::select::ranks_of(ws, k1.eff_table());
            crate::kernel::select::lemma_choice_exists(ws, prios);
            let b = crate::kernel::select::choice(ws, prios);
            let r = ws[b];
            assert(r < k.tasks.len());
            assert(r != tid);
            assert(work_accounted(k.tasks[r as int]));
            assert(k2.tasks[r as int] == k.tasks[r as int].woken_up());
            assert(k2.tasks[tid as int] == k1.tasks[tid as int]);
            lemma_unblocked(k.tasks[r as int], k2.tasks[r as int]);
            lemma_collect(k, k2, tid as int, r as int);
        } else {
            assert(k2.tasks[tid as int] == k1.tasks[tid as int]);
            lemma_collect(k, k2, tid as int, tid as int);
        }
    }
}

proof fn lemma_queue_recv_work(k: KernelView, tid: usize, q: usize)
    requires
        op_ready(k, tid, Op::QueueRecv(q)),
    ensures
        all_accounted(k.op_step(tid).0),
{
    lemma_setup(k, tid, Op::QueueRecv(q));
    let t = k.tasks[tid as int];
    let k2 = k.op_step(tid).0;
    assert(k.queue_ok(q as int));
    let qv = k.queues[q as int];
    let ws = qv.send_waiters;
    if qv.buf.len() == 0 {
        lemma_parked_here(t, k2.tasks[tid as int]);
        lemma_collect(k, k2, tid as int, tid as int);
    } else {
        let k1 = k.set_queue(q, qv.after_recv().0).set_task(tid, t.advanced()).logged(
            Event::QueueRecv { task: tid, queue: q, value: qv.buf[0] },
        );
        lemma_advance_free(t, k1.tasks[tid as int]);
        if ws.len() > 0 {
            let prios = crate::kernel::select::ranks_of(ws, k1.eff_table());
            crate::kernel::select::lemma_choice_exists(ws, prios);
            let b = crate::kernel::select::choice(ws, prios);
            let r = ws[b];
            assert(r < k.tasks.len());
            assert(r != tid);
            assert(work_accounted(k.tasks[r as int]));
            assert(k2.tasks[r as int] == k.tasks[r as int].woken_up());
            assert(k2.tasks[tid as int] == k1.tasks[tid as int]);
            lemma_unblocked(k.tasks[r as int], k2.tasks[r as int]);
            lemma_collect(k, k2, tid as int, r as int);
        } else {
            assert(k2.tasks[tid as int] == k1.tasks[tid as int]);
            lemma_collect(k, k2, tid as int, tid as int);
        }
    }
}

/// One iteration of a quantum keeps every task's work accounted for.
proof fn lemma_op_step_work(k: KernelView, tid: usize)
    requires
        k.wf(),
        all_accounted(k),
        tid < k.tasks.len(),
        k.tasks[tid as int].state == TaskState::Running,
        k.op_fits(tid),
    ensures
        all_accounted(k.op_step(tid).0),
{
    let t = k.tasks[tid as int];
    match t.current_op() {
        None => {
            assert(k.task_ok(tid as int));
            assert(work_accounted(t));
            lemma_budget_whole(t.program);
            lemma_one_more_job(t.jobs_completed as int, budget(t.program) as int);
            lemma_collect(k, k.op_step(tid).0, tid as int, tid as int);
        },
        Some(op) => match op {
            Op::Compute(n) => lemma_compute_work(k, tid, n),
            Op::Lock(m) => lemma_lock_work(k, tid, m),
            Op::Unlock(m) => lemma_unlock_work(k, tid, m),
            Op::SemSignal(sm) => lemma_sem_signal_work(k, tid, sm),
            Op::QueueSend(q, v) => lemma_queue_send_work(k, tid, q, v),
            Op::QueueRecv(q) => lemma_queue_recv_work(k, tid, q),
            _ => {
                lemma_setup(k, tid, op);
                let k2 = k.op_step(tid).0;
                let u = k2.tasks[tid as int];
                match op {
                    Op::SemWait(sm) => {
                        if k.semaphores[sm as int].count > 0 {
                            assert(u == t.advanced());
                            lemma_advance_free(t, u);
                        } else {
                            assert(u == t.parked(BlockReason::Semaphore(sm)));
                            lemma_parked_here(t, u);
                        }
                    },
                    Op::Delay(n) => {
                        lemma_advance_free(t, u);
                    },
                    _ => {
                        assert(u == t.advanced());
                        lemma_advance_free(t, u);
                    },
                }
                lemma_collect(k, k2, tid as int, tid as int);
            },
        },
    }
}

/// A quantum keeps every task's work accounted for, given room in the counters.
proof fn lemma_quantum_work(k: KernelView, tid: usize)
    requires
        k.wf(),
        all_accounted(k),
        tid < k.tasks.len(),
        k.tasks[tid as int].state == TaskState::Running,
        k.quantum_fits(tid),
    ensures
        all_accounted(k.quantum(tid)),
    decreases k.ops_left(tid),
{
    let (k1, go_on) = k.op_step(tid);
    lemma_op_step_work(k, tid);
    k.lemma_op_step(tid);
    if go_on && k.makes_progress(k1, tid) {
        lemma_quantum_work(k1, tid);
    }
}

/// The tick ISR's changes to one task keep its work accounted for: a released job
/// starts at the top of its program.
proof fn lemma_tick_task_work(t: TaskView, now: u64)
    requires
        work_accounted(t),
    ensures
        work_accounted(deadline_checked(slept(released(t, now), now), now)),
{
    let t1 = released(t, now);
    assert(work_accounted(t1));
    let t2 = slept(t1, now);
    assert(work_accounted(t2));
}

/// The tick ISR keeps every task's work accounted for.
proof fn lemma_ticked_work(k: KernelView)
    requires
        all_accounted(k),
    ensures
        all_accounted(k.ticked()),
{
    let kt = k.ticked();
    let now = k.now;
    assert forall|i: int| 0 <= i < kt.tasks.len() implies work_accounted(#[trigger] kt.tasks[i]) by {
        assert(work_accounted(k.tasks[i]));
        lemma_tick_task_work(k.tasks[i], now);
        assert(kt.tasks[i] == deadline_checked(slept(released(k.tasks[i], now), now), now));
    }
}

/// Dispatching changes no task's work.
proof fn lemma_dispatch_work(k: KernelView, tid: usize, top: u8)
    requires
        all_accounted(k),
        tid < k.tasks.len(),
        k.running matches Some(r) ==> r < k.tasks.len(),
    ensures
        all_accounted(k.dispatch_prep(tid, top)),
{
    let k1 = if k.tasks[tid as int].eff_priority < top {
        KernelView { invariant_violations: (k.invariant_violations + 1) as u64, ..k }
    } else {
        k
    };
    let k2 = match k.running {
        Some(prev) => if prev != tid && k1.tasks[prev as int].state == TaskState::Running {
            let tp = k1.tasks[prev as int];
            k1.set_task(prev, TaskView { state: TaskState::Ready, preemptions: (tp.preemptions + 1) as u64, ..tp }).logged(
                Event::Preempt { preempted: prev, by: tid },
            )
        } else {
            k1
        },
        None => k1,
    };
    lemma_collect(k, k2, -1, -1);
    lemma_collect(k2, k.dispatch_prep(tid, top), -1, -1);
}

/// One tick keeps every task's work accounted for, given room in the counters.
proof fn lemma_stepped_work(k: KernelView)
    requires
        k.wf(),
        all_accounted(k),
        k.step_fits(),
    ensures
        all_accounted(k.stepped()),
{
    let ks = k.serviced();
    if k.timer_due() {
        lemma_collect(k, k.clocked(), -1, -1);
        lemma_ticked_work(k.clocked());
    } else {
        lemma_collect(k, ks, -1, -1);
    }
    k.lemma_serviced_wf();
    let kr = ks.recorded();
    lemma_collect(ks, kr, -1, -1);
    ks.lemma_recorded_wf();
    match picked(ks.tasks) {
        None => {
            lemma_collect(kr, k.stepped(), -1, -1);
        },
        Some(tid) => {
            crate::kernel::laws::law_pick_is_highest_ready(ks.tasks);
            let top = max_eff(ready_entries(ks.tasks, ks.tasks.len() as int));
            let kd = kr.dispatch_prep(tid, top);
            lemma_dispatch_work(kr, tid, top);
            kr.lemma_dispatch_prep_wf(tid, top);
            lemma_quantum_work(kd, tid);
        },
    }
}

/// A job costs exactly its worst-case execution time: over any run of a
/// well-formed kernel with room in its counters, from a state where every task's
/// CPU ticks are its completed jobs' budgets plus its current job's progress (as
/// they are for a task just added), every task keeps using exactly one budget (the
/// sum of its compute steps) per completed job, plus the progress of the job it is
/// in; a task between jobs has used exactly its budget times its completed jobs.
pub proof fn law_job_costs_its_wcet(k: KernelView, n: nat)
    requires
        k.wf(),
        all_accounted(k),
        k.run_fits(n),
    ensures
        all_accounted(k.run_for(n)),
        forall|i: int|
            0 <= i < k.run_for(n).tasks.len() && !(#[trigger] k.run_for(n).tasks[i]).job_active ==> k.run_for(n).tasks[i].cpu_ticks
                == k.run_for(n).tasks[i].jobs_completed * budget(k.run_for(n).tasks[i].program),
    decreases n,
{
    if n > 0 {
        lemma_stepped_work(k);
        crate::kernel::accounting::lemma_stepped_balanced(k);
        law_job_costs_its_wcet(k.stepped(), (n - 1) as nat);
    } else {
        assert forall|i: int| 0 <= i < k.tasks.len() && !(#[trigger] k.tasks[i]).job_active implies k.tasks[i].cpu_ticks
            == k.tasks[i].jobs_completed * budget(k.tasks[i].program) by {
            assert(work_accounted(k.tasks[i]));
            assert(k.tasks[i].program.take(0) =~= Seq::<Op>::empty());
        }
    }
}

/// A kernel starts with every task's work accounted for: adding a task whose
/// counters are all at zero and that has no job yet keeps it so.
pub proof fn law_new_task_accounted(k: KernelView, t: TaskView)
    requires
        all_accounted(k),
        t.cpu_ticks == 0,
        t.jobs_completed == 0,
        t.pc == 0,
        t.compute_remaining == 0,
        !t.job_active,
        t.blocked_on is None,
    ensures
        all_accounted(k.with_new_task(t)),
{
    let k2 = k.with_new_task(t);
    assert(t.program.take(0) =~= Seq::<Op>::empty());
    assert forall|i: int| 0 <= i < k2.tasks.len() implies work_accounted(#[trigger] k2.tasks[i]) by {
        if i < k.tasks.len() {
            assert(k2.tasks[i] == k.tasks[i]);
        } else {
            let u = k2.tasks[i];
            assert(u.program.take(0) =~= Seq::<Op>::empty());
            assert(budget(u.program.take(0)) == 0);
            assert(u.jobs_completed == 0);
            assert(u.jobs_completed * budget(u.program) == 0) by (nonlinear_arith)
                requires
                    u.jobs_completed == 0,
            ;
        }
    }
}

} // verus!
