//! No task ever runs below its own priority, and with priority inheritance on a
//! boost lasts only while it is owed: a task that holds no mutex runs at exactly its
//! own priority.
use vstd::prelude::*;
use crate::kernel::{BlockReason, Event, KernelView, Op, TaskState, TaskView};
use crate::kernel::boost::{
    inheritance_state, lemma_frame, lemma_held_max, lemma_op_step_keeps, lemma_quantum_keeps, owners_listed,
    same_priorities,
};
use crate::kernel::model::{count_below, max_eff, picked, ready_entries};

verus! {

/// `t` runs at or above its own priority, and at exactly its own priority when it
/// holds no mutex.
pub open spec fn settled(t: TaskView) -> bool {
    &&& t.eff_priority >= t.base_priority
    &&& (t.held_mutexes.len() == 0 ==> t.eff_priority == t.base_priority)
}

/// Every task of `k` is settled.
pub open spec fn no_stale_boost(k: KernelView) -> bool {
    forall|i: int| 0 <= i < k.tasks.len() ==> settled(#[trigger] k.tasks[i])
}

/// Every task of `k` but the one at `h` is settled.
pub open spec fn settled_but(k: KernelView, h: int) -> bool {
    forall|i: int| 0 <= i < k.tasks.len() && i != h ==> settled(#[trigger] k.tasks[i])
}

/// A transition that keeps every task's priorities and held list keeps every
/// task settled.
proof fn lemma_settled_frame(k: KernelView, k2: KernelView)
    requires
        no_stale_boost(k),
        same_priorities(k, k2),
    ensures
        no_stale_boost(k2),
{
    assert forall|i: int| 0 <= i < k2.tasks.len() implies settled(#[trigger] k2.tasks[i]) by {
        assert(settled(k.tasks[i]));
    }
}

/// The inheritance walk only raises priorities, and only those of mutex holders.
proof fn lemma_inherited_settled(k: KernelView, x: usize)
    requires
        k.wf(),
        no_stale_boost(k),
        owners_listed(k),
    ensures
        no_stale_boost(k.inherited(x)),
    decreases count_below(k.tasks, k.tasks[x as int].eff_priority),
{
    let boosts = x < k.tasks.len() && match k.tasks[x as int].blocked_on {
        Some(BlockReason::Mutex(mid)) => mid < k.mutexes.len() && match k.mutexes[mid as int].owner {
            Some(o) => o < k.tasks.len() && k.tasks[x as int].eff_priority > k.tasks[o as int].eff_priority,
            None => false,
        },
        _ => false,
    };
    if boosts {
        let mid = k.tasks[x as int].blocked_on->Some_0->Mutex_0;
        let o = k.mutexes[mid as int].owner->Some_0;
        let want = k.tasks[x as int].eff_priority;
        let e = Event::Inherit { holder: o, boosted_to: want, waiter: x };
        let k1 = k.set_task(o, k.tasks[o as int].with_eff(want)).logged(e);
        assert(k.inherited(x) == k1.inherited(o));
        assert(k.tasks[o as int].held_mutexes.contains(mid));
        assert(settled(k.tasks[o as int]));
        assert forall|i: int| 0 <= i < k1.tasks.len() implies settled(#[trigger] k1.tasks[i]) by {
            assert(settled(k.tasks[i]));
        }
        assert forall|m: int| 0 <= m < k1.mutexes.len() && (#[trigger] k1.mutexes[m]).owner is Some implies k1.tasks[k1.mutexes[m].owner->Some_0 as int].held_mutexes.contains(
            m as usize,
        ) by {
            let h = k.mutexes[m].owner->Some_0;
            assert(k.mutex_ok(m));
            assert(k1.mutexes[m] == k.mutexes[m]);
            assert(k.tasks[h as int].held_mutexes.contains(m as usize));
            assert(k1.tasks[h as int].held_mutexes == k.tasks[h as int].held_mutexes);
        }
        k.lemma_wf_eff_log(o, want, e);
        crate::kernel::model::lemma_count_below_raise(k.tasks, o as int, k.tasks[o as int].with_eff(want), want);
        lemma_inherited_settled(k1, o);
    }
}

/// Recomputing a holder's priority settles it: it gets its own priority raised to
/// those of its mutexes' waiters, which is its own priority when it holds nothing.
proof fn lemma_recomputed_settled(k: KernelView, h: usize)
    requires
        h < k.tasks.len(),
        settled_but(k, h as int),
    ensures
        no_stale_boost(k.recomputed(h)),
{
    let t = k.tasks[h as int];
    lemma_held_max(k, t.held_mutexes, t.held_mutexes.len() as int, t.base_priority);
    let r = k.recomputed(h);
    assert forall|i: int| 0 <= i < r.tasks.len() implies settled(#[trigger] r.tasks[i]) by {
        if i != h {
            assert(settled(k.tasks[i]));
        }
    }
}

/// Taking a free mutex, or blocking on a held one and handing the priority down
/// the chain, keeps every task settled.
proof fn lemma_lock_settled(k: KernelView, tid: usize, m: usize)
    requires
        inheritance_state(k),
        no_stale_boost(k),
        tid < k.tasks.len(),
        m < k.mutexes.len(),
        k.tasks[tid as int].state == TaskState::Running,
        k.tasks[tid as int].current_op() == Some(Op::Lock(m)),
    ensures
        no_stale_boost(k.op_lock(tid, m).0),
{
    let t = k.tasks[tid as int];
    let mx = k.mutexes[m as int];
    let k2 = k.op_lock(tid, m).0;
    match mx.owner {
        None => {
            assert forall|i: int| 0 <= i < k2.tasks.len() implies settled(#[trigger] k2.tasks[i]) by {
                assert(settled(k.tasks[i]));
                if i == tid {
                    assert(k2.tasks[i].held_mutexes.len() > 0);
                }
            }
        },
        Some(owner) => {
            let e = Event::BlockOnMutex { task: tid, mutex: m, owner };
            let k1 = k.set_mutex(m, mx.with_waiter(tid)).set_task(tid, t.parked(BlockReason::Mutex(m))).idle_cpu().logged(e);
            assert forall|i: int| 0 <= i < k1.tasks.len() implies settled(#[trigger] k1.tasks[i]) by {
                assert(settled(k.tasks[i]));
            }
            assert forall|mm: int| 0 <= mm < k1.mutexes.len() && (#[trigger] k1.mutexes[mm]).owner is Some implies k1.tasks[k1.mutexes[mm].owner->Some_0 as int].held_mutexes.contains(
                mm as usize,
            ) by {
                assert(k.mutex_ok(mm));
                assert(k.tasks[k.mutexes[mm].owner->Some_0 as int].held_mutexes.contains(mm as usize));
            }
            k.lemma_lock_blocked_wf(tid, m);
            lemma_inherited_settled(k1, tid);
        },
    }
}

/// Releasing a mutex keeps every task settled: the releaser and the waiter it
/// hands the mutex to are recomputed.
proof fn lemma_unlock_settled(k: KernelView, tid: usize, m: usize)
    requires
        inheritance_state(k),
        no_stale_boost(k),
        tid < k.tasks.len(),
        m < k.mutexes.len(),
        k.tasks[tid as int].state == TaskState::Running,
        k.tasks[tid as int].current_op() == Some(Op::Unlock(m)),
    ensures
        no_stale_boost(k.op_unlock(tid, m)),
{
    let t = k.tasks[tid as int];
    let mx = k.mutexes[m as int];
    let prios = crate::kernel::select::ranks_of(mx.waiters, k.eff_table());
    let (mv, next) = mx.released(tid, prios);
    let k1 = k.set_mutex(m, mv).set_task(
        tid,
        TaskView { held_mutexes: crate::kernel::model::without_value(t.held_mutexes, m), ..t }.advanced(),
    ).logged(Event::Unlock { task: tid, mutex: m });
    let k2 = k1.recomputed(tid);
    k.lemma_unlock_wf(tid, m);
    assert forall|i: int| 0 <= i < k1.tasks.len() && i != tid implies settled(#[trigger] k1.tasks[i]) by {
        assert(settled(k.tasks[i]));
    }
    lemma_recomputed_settled(k1, tid);
    match next {
        None => {},
        Some(n) => {
            assert(k.mutex_ok(m as int));
            crate::kernel::select::lemma_choice_exists(mx.waiters, prios);
            let b = crate::kernel::select::choice(mx.waiters, prios);
            assert(n == mx.waiters[b]);
            assert(k.waiter_ok(mx.waiters[b], BlockReason::Mutex(m)));
            let tn = k2.tasks[n as int];
            let k3 = k2.set_task(
                n,
                TaskView { held_mutexes: tn.held_mutexes.push(m), ..tn }.woken_up().advanced(),
            ).logged(Event::Lock { task: n, mutex: m });
            assert(k.op_unlock(tid, m) == k3.recomputed(n));
            assert forall|i: int| 0 <= i < k3.tasks.len() && i != n implies settled(#[trigger] k3.tasks[i]) by {
                assert(settled(k2.tasks[i]));
            }
            lemma_recomputed_settled(k3, n);
        },
    }
}

/// One iteration of a quantum keeps every task settled.
proof fn lemma_op_step_settled(k: KernelView, tid: usize)
    requires
        inheritance_state(k),
        no_stale_boost(k),
        tid < k.tasks.len(),
        k.tasks[tid as int].state == TaskState::Running,
    ensures
        no_stale_boost(k.op_step(tid).0),
{
    let t = k.tasks[tid as int];
    lemma_op_step_keeps(k, tid);
    assert(k.task_ok(tid as int));
    match t.current_op() {
        Some(Op::Lock(m)) => {
            assert(crate::kernel::wellformed::op_valid(t.program[t.pc as int], k.mutexes.len(), k.semaphores.len(), k.queues.len()));
            lemma_lock_settled(k, tid, m);
        },
        Some(Op::Unlock(m)) => {
            assert(crate::kernel::wellformed::op_valid(t.program[t.pc as int], k.mutexes.len(), k.semaphores.len(), k.queues.len()));
            lemma_unlock_settled(k, tid, m);
        },
        _ => {
            lemma_settled_frame(k, k.op_step(tid).0);
        },
    }
}

/// A quantum keeps every task settled.
proof fn lemma_quantum_settled(k: KernelView, tid: usize)
    requires
        inheritance_state(k),
        no_stale_boost(k),
        tid < k.tasks.len(),
        k.tasks[tid as int].state == TaskState::Running,
    ensures
        no_stale_boost(k.quantum(tid)),
    decreases k.ops_left(tid),
{
    let (k1, go_on) = k.op_step(tid);
    lemma_op_step_settled(k, tid);
    lemma_op_step_keeps(k, tid);
    k.lemma_op_step(tid);
    if go_on && k.makes_progress(k1, tid) {
        lemma_quantum_settled(k1, tid);
    }
}

/// One tick keeps every task settled, and the inheritance state.
proof fn lemma_stepped_settled(k: KernelView)
    requires
        inheritance_state(k),
        no_stale_boost(k),
    ensures
        inheritance_state(k.stepped()),
        no_stale_boost(k.stepped()),
{
    let ks = k.serviced();
    k.lemma_serviced_wf();
    assert(same_priorities(k, ks));
    lemma_frame(k, ks);
    lemma_settled_frame(k, ks);
    let kr = ks.recorded();
    ks.lemma_recorded_wf();
    lemma_frame(ks, kr);
    lemma_settled_frame(ks, kr);
    match picked(ks.tasks) {
        None => {
            kr.lemma_wf_same_structure(k.stepped());
            lemma_frame(kr, k.stepped());
            lemma_settled_frame(kr, k.stepped());
        },
        Some(tid) => {
            crate::kernel::laws::law_pick_is_highest_ready(ks.tasks);
            let top = max_eff(ready_entries(ks.tasks, ks.tasks.len() as int));
            let kd = kr.dispatch_prep(tid, top);
            kr.lemma_dispatch_prep_wf(tid, top);
            assert(same_priorities(kr, kd));
            lemma_frame(kr, kd);
            lemma_settled_frame(kr, kd);
            lemma_quantum_keeps(kd, tid);
            lemma_quantum_settled(kd, tid);
        },
    }
}

/// With priority inheritance on, a boost lasts only while it is owed: over any
/// run from the inheritance state in which no task runs below its own priority and
/// every task that holds no mutex runs at exactly its own priority (as in every
/// kernel before its first lock), that stays so at every tick. A boosted holder
/// falls back to its own priority once it has released every mutex it held.
pub proof fn law_boost_ends_with_the_hold(k: KernelView, n: nat)
    requires
        inheritance_state(k),
        no_stale_boost(k),
    ensures
        no_stale_boost(k.run_for(n)),
    decreases n,
{
    if n > 0 {
        lemma_stepped_settled(k);
        law_boost_ends_with_the_hold(k.stepped(), (n - 1) as nat);
    }
}

/// No task of `k` runs below its own priority.
pub open spec fn at_or_above_base(k: KernelView) -> bool {
    forall|i: int| 0 <= i < k.tasks.len() ==> (#[trigger] k.tasks[i]).eff_priority >= k.tasks[i].base_priority
}

/// `k2` has the tasks of `k` at the same effective and base priorities.
pub open spec fn same_ranks(k: KernelView, k2: KernelView) -> bool {
    &&& k2.tasks.len() == k.tasks.len()
    &&& forall|i: int|
        0 <= i < k.tasks.len() ==> (#[trigger] k2.tasks[i]).eff_priority == k.tasks[i].eff_priority
            && k2.tasks[i].base_priority == k.tasks[i].base_priority
}

proof fn lemma_floor_frame(k: KernelView, k2: KernelView)
    requires
        at_or_above_base(k),
        same_ranks(k, k2),
    ensures
        at_or_above_base(k2),
{
    assert forall|i: int| 0 <= i < k2.tasks.len() implies (#[trigger] k2.tasks[i]).eff_priority >= k2.tasks[i].base_priority by {
        assert(k.tasks[i].eff_priority >= k.tasks[i].base_priority);
    }
}

/// The inheritance walk only raises priorities.
proof fn lemma_inherited_floor(k: KernelView, x: usize)
    requires
        at_or_above_base(k),
    ensures
        at_or_above_base(k.inherited(x)),
    decreases count_below(k.tasks, k.tasks[x as int].eff_priority),
{
    let boosts = x < k.tasks.len() && match k.tasks[x as int].blocked_on {
        Some(BlockReason::Mutex(mid)) => mid < k.mutexes.len() && match k.mutexes[mid as int].owner {
            Some(o) => o < k.tasks.len() && k.tasks[x as int].eff_priority > k.tasks[o as int].eff_priority,
            None => false,
        },
        _ => false,
    };
    if boosts {
        let mid = k.tasks[x as int].blocked_on->Some_0->Mutex_0;
        let o = k.mutexes[mid as int].owner->Some_0;
        let want = k.tasks[x as int].eff_priority;
        let e = Event::Inherit { holder: o, boosted_to: want, waiter: x };
        let k1 = k.set_task(o, k.tasks[o as int].with_eff(want)).logged(e);
        assert(k.inherited(x) == k1.inherited(o));
        assert forall|i: int| 0 <= i < k1.tasks.len() implies (#[trigger] k1.tasks[i]).eff_priority >= k1.tasks[i].base_priority by {
            assert(k.tasks[i].eff_priority >= k.tasks[i].base_priority);
        }
        crate::kernel::model::lemma_count_below_raise(k.tasks, o as int, k.tasks[o as int].with_eff(want), want);
        lemma_inherited_floor(k1, o);
    }
}

/// Recomputing a holder's priority never takes it below its own.
proof fn lemma_recomputed_floor(k: KernelView, h: usize)
    requires
        h < k.tasks.len(),
        forall|i: int| 0 <= i < k.tasks.len() && i != h ==> (#[trigger] k.tasks[i]).eff_priority >= k.tasks[i].base_priority,
    ensures
        at_or_above_base(k.recomputed(h)),
{
    let t = k.tasks[h as int];
    lemma_held_max(k, t.held_mutexes, t.held_mutexes.len() as int, t.base_priority);
}

/// One iteration of a quantum keeps every task at or above its own priority.
proof fn lemma_op_step_floor(k: KernelView, tid: usize)
    requires
        k.wf(),
        at_or_above_base(k),
        tid < k.tasks.len(),
        k.tasks[tid as int].state == TaskState::Running,
    ensures
        at_or_above_base(k.op_step(tid).0),
{
    let t = k.tasks[tid as int];
    let k2 = k.op_step(tid).0;
    assert(k.task_ok(tid as int));
    match t.current_op() {
        Some(Op::Lock(m)) => {
            assert(crate::kernel::wellformed::op_valid(t.program[t.pc as int], k.mutexes.len(), k.semaphores.len(), k.queues.len()));
            let mx = k.mutexes[m as int];
            match mx.owner {
                None => {
                    assert(same_ranks(k, k2));
                    lemma_floor_frame(k, k2);
                },
                Some(owner) => {
                    let e = Event::BlockOnMutex { task: tid, mutex: m, owner };
                    let k1 = k.set_mutex(m, mx.with_waiter(tid)).set_task(tid, t.parked(BlockReason::Mutex(m))).idle_cpu().logged(e);
                    assert(same_ranks(k, k1));
                    lemma_floor_frame(k, k1);
                    if k.config.priority_inheritance {
                        lemma_inherited_floor(k1, tid);
                    }
                },
            }
        },
        Some(Op::Unlock(m)) => {
            assert(crate::kernel::wellformed::op_valid(t.program[t.pc as int], k.mutexes.len(), k.semaphores.len(), k.queues.len()));
            let mx = k.mutexes[m as int];
            let prios = crate::kernel::select::ranks_of(mx.waiters, k.eff_table());
            let (mv, next) = mx.released(tid, prios);
            let k1 = k.set_mutex(m, mv).set_task(
                tid,
                TaskView { held_mutexes: crate::kernel::model::without_value(t.held_mutexes, m), ..t }.advanced(),
            ).logged(Event::Unlock { task: tid, mutex: m });
            let pi = k.config.priority_inheritance;
            assert(same_ranks(k, k1));
            lemma_floor_frame(k, k1);
            let kr = if pi { k1.recomputed(tid) } else { k1 };
            if pi {
                lemma_recomputed_floor(k1, tid);
            }
            match next {
                None => {},
                Some(n) => {
                    assert(k.mutex_ok(m as int));
                    crate::kernel::select::lemma_choice_exists(mx.waiters, prios);
                    let b = crate::kernel::select::choice(mx.waiters, prios);
                    assert(n == mx.waiters[b]);
                    assert(k.waiter_ok(mx.waiters[b], BlockReason::Mutex(m)));
                    let tn = kr.tasks[n as int];
                    let k3 = kr.set_task(n, TaskView { held_mutexes: tn.held_mutexes.push(m), ..tn }.woken_up().advanced()).logged(
                        Event::Lock { task: n, mutex: m },
                    );
                    assert(same_ranks(kr, k3));
                    lemma_floor_frame(kr, k3);
                    if pi {
                        lemma_recomputed_floor(k3, n);
                    }
                    assert(k.op_unlock(tid, m) == if pi { k3.recomputed(n) } else { k3 });
                },
            }
        },
        Some(Op::SemSignal(sm)) => {
            assert(crate::kernel::wellformed::op_valid(t.program[t.pc as int], k.mutexes.len(), k.semaphores.len(), k.queues.len()));
            let sv = k.semaphores[sm as int];
            let prios = crate::kernel::select::ranks_of(sv.waiters, k.eff_table());
            if sv.waiters.len() > 0 {
                assert(k.sem_ok(sm as int));
                crate::kernel::select::lemma_choice_exists(sv.waiters, prios);
                let b = crate::kernel::select::choice(sv.waiters, prios);
                assert(k.waiter_ok(sv.waiters[b], BlockReason::Semaphore(sm)));
            }
            assert(same_ranks(k, k2));
            lemma_floor_frame(k, k2);
        },
        Some(Op::QueueSend(q, v)) => {
            assert(crate::kernel::wellformed::op_valid(t.program[t.pc as int], k.mutexes.len(), k.semaphores.len(), k.queues.len()));
            assert(k.queue_ok(q as int));
            let qv = k.queues[q as int];
            let ws = qv.recv_waiters;
            if !qv.is_full() && ws.len() > 0 {
                let k1 = k.set_queue(q, qv.after_send(v).0).set_task(tid, t.advanced()).logged(
                    Event::QueueSend { task: tid, queue: q, value: v },
                );
                let prios = crate::kernel::select::ranks_of(ws, k1.eff_table());
                crate::kernel::select::lemma_choice_exists(ws, prios);
                let b = crate::kernel::select::choice(ws, prios);
                assert(ws[b] < k.tasks.len());
            }
            assert(same_ranks(k, k2));
            lemma_floor_frame(k, k2);
        },
        Some(Op::QueueRecv(q)) => {
            assert(crate::kernel::wellformed::op_valid(t.program[t.pc as int], k.mutexes.len(), k.semaphores.len(), k.queues.len()));
            assert(k.queue_ok(q as int));
            let qv = k.queues[q as int];
            let ws = qv.send_waiters;
            if qv.buf.len() > 0 && ws.len() > 0 {
                let k1 = k.set_queue(q, qv.after_recv().0).set_task(tid, t.advanced()).logged(
                    Event::QueueRecv { task: tid, queue: q, value: qv.buf[0] },
                );
                let prios = crate::kernel::select::ranks_of(ws, k1.eff_table());
                crate::kernel::select::lemma_choice_exists(ws, prios);
                let b = crate::kernel::select::choice(ws, prios);
                assert(ws[b] < k.tasks.len());
            }
            assert(same_ranks(k, k2));
            lemma_floor_frame(k, k2);
        },
        _ => {
            assert(same_ranks(k, k2));
            lemma_floor_frame(k, k2);
        },
    }
}

proof fn lemma_quantum_floor(k: KernelView, tid: usize)
    requires
        k.wf(),
        at_or_above_base(k),
        tid < k.tasks.len(),
        k.tasks[tid as int].state == TaskState::Running,
    ensures
        at_or_above_base(k.quantum(tid)),
    decreases k.ops_left(tid),
{
    let (k1, go_on) = k.op_step(tid);
    lemma_op_step_floor(k, tid);
    k.lemma_op_step(tid);
    if go_on && k.makes_progress(k1, tid) {
        lemma_quantum_floor(k1, tid);
    }
}

proof fn lemma_stepped_floor(k: KernelView)
    requires
        k.wf(),
        at_or_above_base(k),
    ensures
        at_or_above_base(k.stepped()),
{
    let ks = k.serviced();
    k.lemma_serviced_wf();
    assert(same_ranks(k, ks));
    lemma_floor_frame(k, ks);
    let kr = ks.recorded();
    ks.lemma_recorded_wf();
    lemma_floor_frame(ks, kr);
    match picked(ks.tasks) {
        None => {
            lemma_floor_frame(kr, k.stepped());
        },
        Some(tid) => {
            crate::kernel::laws::law_pick_is_highest_ready(ks.tasks);
            let top = max_eff(ready_entries(ks.tasks, ks.tasks.len() as int));
            let kd = kr.dispatch_prep(tid, top);
            kr.lemma_dispatch_prep_wf(tid, top);
            assert(same_ranks(kr, kd));
            lemma_floor_frame(kr, kd);
            lemma_quantum_floor(kd, tid);
        },
    }
}

/// No task ever runs below its own priority: over any run of a well-formed kernel
/// in which every task's effective priority is at least its base priority (as in
/// every kernel before its first lock), that stays so at every tick, whether
/// inheritance is on or off. Boosts only raise, and a recomputed priority starts
/// from the task's own.
pub proof fn law_never_below_own_priority(k: KernelView, n: nat)
    requires
        k.wf(),
        at_or_above_base(k),
    ensures
        at_or_above_base(k.run_for(n)),
    decreases n,
{
    if n > 0 {
        lemma_stepped_floor(k);
        crate::kernel::accounting::lemma_stepped_balanced(k);
        law_never_below_own_priority(k.stepped(), (n - 1) as nat);
    }
}

} // verus!
