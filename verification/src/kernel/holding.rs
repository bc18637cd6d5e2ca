//! Mutex owners and the tasks' lists of held mutexes agree: a task lists a mutex
//! exactly when it owns it, and lists it once, whether inheritance is on or off.
use vstd::prelude::*;
use crate::kernel::{BlockReason, Event, KernelView, Op, TaskState, TaskView};
use crate::kernel::model::{max_eff, picked, ready_entries, without_value, differs_from};

verus! {

/// Every mutex's owner lists it among its held mutexes, every listed mutex is owned
/// by the task that lists it, and no task lists a mutex twice.
pub open spec fn holds_match(k: KernelView) -> bool {
    &&& forall|m: int, t: int|
        #![trigger k.mutexes[m], k.tasks[t]]
        0 <= m < k.mutexes.len() && 0 <= t < k.tasks.len() ==> (k.mutexes[m].owner == Some(t as usize)
            <==> k.tasks[t].held_mutexes.contains(m as usize))
    &&& forall|t: int| 0 <= t < k.tasks.len() ==> (#[trigger] k.tasks[t]).held_mutexes.no_duplicates()
}

/// `k2` has the mutex owners and the held lists of `k`.
pub open spec fn same_holding(k: KernelView, k2: KernelView) -> bool {
    &&& k2.mutexes.len() == k.mutexes.len()
    &&& k2.tasks.len() == k.tasks.len()
    &&& forall|m: int| 0 <= m < k.mutexes.len() ==> (#[trigger] k2.mutexes[m]).owner == k.mutexes[m].owner
    &&& forall|t: int| 0 <= t < k.tasks.len() ==> (#[trigger] k2.tasks[t]).held_mutexes == k.tasks[t].held_mutexes
}

proof fn lemma_holding_frame(k: KernelView, k2: KernelView)
    requires
        holds_match(k),
        same_holding(k, k2),
    ensures
        holds_match(k2),
{
    assert forall|m: int, t: int|
        #![trigger k2.mutexes[m], k2.tasks[t]]
        0 <= m < k2.mutexes.len() && 0 <= t < k2.tasks.len() implies (k2.mutexes[m].owner == Some(t as usize)
            <==> k2.tasks[t].held_mutexes.contains(m as usize)) by {
        assert(k.mutexes[m].owner == Some(t as usize) <==> k.tasks[t].held_mutexes.contains(m as usize));
    }
    assert forall|t: int| 0 <= t < k2.tasks.len() implies (#[trigger] k2.tasks[t]).held_mutexes.no_duplicates() by {
        assert(k.tasks[t].held_mutexes.no_duplicates());
    }
}

/// The inheritance walk changes no owner and no held list.
proof fn lemma_inherited_holding(k: KernelView, x: usize)
    ensures
        same_holding(k, k.inherited(x)),
    decreases crate::kernel::model::count_below(k.tasks, k.tasks[x as int].eff_priority),
{
    let boosts = x < k.tasks.len() && match k.tasks[x as int].blocked_on {
        Some(BlockReason::Mutex(mid)) => mid < k.mutexes.len() && match k.mutexes[mid as int].owner {
            Some(o) => o < k.tasks.len() && k.tasks[x as int].eff_priority > k.tasks[o as int].eff_priority,
            None => false,
        },
        _ => false,
    };
    if boosts {
        let mid = k.tasks[x as int].blocked_on->Some_0->Mutex_0;
        let o = k.mutexes[mid as int].owner->Some_0;
        let want = k.tasks[x as int].eff_priority;
        let e = Event::Inherit { holder: o, boosted_to: want, waiter: x };
        let k1 = k.set_task(o, k.tasks[o as int].with_eff(want)).logged(e);
        assert(k.inherited(x) == k1.inherited(o));
        crate::kernel::model::lemma_count_below_raise(k.tasks, o as int, k.tasks[o as int].with_eff(want), want);
        lemma_inherited_holding(k1, o);
    }
}

/// Recomputing a priority changes no owner and no held list.
proof fn lemma_recomputed_holding(k: KernelView, h: usize)
    requires
        h < k.tasks.len(),
    ensures
        same_holding(k, k.recomputed(h)),
{
}

/// Removing every occurrence of `x` keeps a list free of duplicates, and keeps
/// exactly the other entries.
proof fn lemma_without(s: Seq<usize>, x: usize)
    requires
        s.no_duplicates(),
    ensures
        without_value(s, x).no_duplicates(),
        forall|y: usize| #[trigger] without_value(s, x).contains(y) <==> (s.contains(y) && y != x),
    decreases s.len(),
{
    let f = differs_from(x);
    assert forall|y: usize| #[trigger] without_value(s, x).contains(y) <==> (s.contains(y) && y != x) by {
        if s.contains(y) && y != x {
            let i = choose|i: int| 0 <= i < s.len() && s[i] == y;
            assert(f(s[i]));
            s.lemma_filter_contains(f, i);
        }
        if without_value(s, x).contains(y) {
            s.lemma_filter_contains_rev(f, y);
        }
    }
    if s.len() > 0 {
        let d = s.drop_last();
        assert(d.no_duplicates());
        lemma_without(d, x);
        d.lemma_filter_push(s.last(), f);
        assert(d.push(s.last()) =~= s);
        if f(s.last()) {
            assert(!d.contains(s.last()));
            assert(!without_value(d, x).contains(s.last()));
            let w = without_value(d, x);
            let w2 = w.push(s.last());
            assert forall|i: int, j: int| 0 <= i < w2.len() && 0 <= j < w2.len() && i != j implies w2[i] != w2[j] by {
                if i < w.len() && j < w.len() {
                } else if i == w.len() {
                    assert(w.contains(w2[j]));
                } else {
                    assert(w.contains(w2[i]));
                }
            }
        }
    }
}

/// Adding an entry a list does not have keeps it free of duplicates.
proof fn lemma_push_new(s: Seq<usize>, x: usize)
    requires
        s.no_duplicates(),
        !s.contains(x),
    ensures
        s.push(x).no_duplicates(),
        forall|y: usize| #[trigger] s.push(x).contains(y) <==> (s.contains(y) || y == x),
{
    let s2 = s.push(x);
    assert forall|i: int, j: int| 0 <= i < s2.len() && 0 <= j < s2.len() && i != j implies s2[i] != s2[j] by {
        if i < s.len() && j < s.len() {
        } else if i == s.len() {
            assert(s.contains(s2[j]));
        } else {
            assert(s.contains(s2[i]));
        }
    }
    assert forall|y: usize| #[trigger] s2.contains(y) <==> (s.contains(y) || y == x) by {
        if s2.contains(y) && y != x {
            let i = choose|i: int| 0 <= i < s2.len() && s2[i] == y;
            assert(s[i] == y);
        }
        if s.contains(y) {
            let i = choose|i: int| 0 <= i < s.len() && s[i] == y;
            assert(s2[i] == y);
        }
        if y == x {
            assert(s2[s.len() as int] == x);
        }
    }
}

/// Taking a free mutex lists it with its new owner; blocking on a held one (and the
/// inheritance walk after it) changes no owner and no held list.
proof fn lemma_lock_holding(k: KernelView, tid: usize, m: usize)
    requires
        k.wf(),
        holds_match(k),
        tid < k.tasks.len(),
        m < k.mutexes.len(),
        k.tasks[tid as int].current_op() == Some(Op::Lock(m)),
    ensures
        holds_match(k.op_lock(tid, m).0),
{
    let t = k.tasks[tid as int];
    let mx = k.mutexes[m as int];
    let k2 = k.op_lock(tid, m).0;
    match mx.owner {
        None => {
            assert(k.mutexes[m as int].owner != Some(tid) <==> !k.tasks[tid as int].held_mutexes.contains(m));
            assert(t.held_mutexes.no_duplicates());
            lemma_push_new(t.held_mutexes, m);
            assert forall|mm: int, x: int|
                #![trigger k2.mutexes[mm], k2.tasks[x]]
                0 <= mm < k2.mutexes.len() && 0 <= x < k2.tasks.len() implies (k2.mutexes[mm].owner == Some(x as usize)
                    <==> k2.tasks[x].held_mutexes.contains(mm as usize)) by {
                assert(k.mutexes[mm].owner == Some(x as usize) <==> k.tasks[x].held_mutexes.contains(mm as usize));
            }
            assert forall|x: int| 0 <= x < k2.tasks.len() implies (#[trigger] k2.tasks[x]).held_mutexes.no_duplicates() by {
                assert(k.tasks[x].held_mutexes.no_duplicates());
            }
        },
        Some(owner) => {
            let e = Event::BlockOnMutex { task: tid, mutex: m, owner };
            let k1 = k.set_mutex(m, mx.with_waiter(tid)).set_task(tid, t.parked(BlockReason::Mutex(m))).idle_cpu().logged(e);
            assert(same_holding(k, k1));
            lemma_holding_frame(k, k1);
            if k.config.priority_inheritance {
                lemma_inherited_holding(k1, tid);
                lemma_holding_frame(k1, k2);
            }
        },
    }
}

/// Releasing a mutex takes it off the releaser's list and, when a waiter gets it,
/// onto the waiter's.
proof fn lemma_unlock_holding(k: KernelView, tid: usize, m: usize)
    requires
        k.wf(),
        holds_match(k),
        tid < k.tasks.len(),
        m < k.mutexes.len(),
        k.tasks[tid as int].state == TaskState::Running,
        k.tasks[tid as int].current_op() == Some(Op::Unlock(m)),
    ensures
        holds_match(k.op_unlock(tid, m)),
{
    let t = k.tasks[tid as int];
    let mx = k.mutexes[m as int];
    let prios = crate::kernel::select::ranks_of(mx.waiters, k.eff_table());
    let (mv, next) = mx.released(tid, prios);
    let held1 = without_value(t.held_mutexes, m);
    let k1 = k.set_mutex(m, mv).set_task(tid, TaskView { held_mutexes: held1, ..t }.advanced()).logged(
        Event::Unlock { task: tid, mutex: m },
    );
    let pi = k.config.priority_inheritance;
    let kr = if pi { k1.recomputed(tid) } else { k1 };
    assert(t.held_mutexes.no_duplicates());
    lemma_without(t.held_mutexes, m);
    assert(mx.owner == Some(tid) <==> t.held_mutexes.contains(m));
    if pi {
        lemma_recomputed_holding(k1, tid);
    }
    assert(same_holding(k1, kr));
    match next {
        None => {
            assert forall|mm: int, x: int|
                #![trigger k1.mutexes[mm], k1.tasks[x]]
                0 <= mm < k1.mutexes.len() && 0 <= x < k1.tasks.len() implies (k1.mutexes[mm].owner == Some(x as usize)
                    <==> k1.tasks[x].held_mutexes.contains(mm as usize)) by {
                assert(k.mutexes[mm].owner == Some(x as usize) <==> k.tasks[x].held_mutexes.contains(mm as usize));
            }
            assert forall|x: int| 0 <= x < k1.tasks.len() implies (#[trigger] k1.tasks[x]).held_mutexes.no_duplicates() by {
                assert(k.tasks[x].held_mutexes.no_duplicates());
            }
            lemma_holding_frame(k1, kr);
        },
        Some(n) => {
            assert(k.mutex_ok(m as int));
            crate::kernel::select::lemma_choice_exists(mx.waiters, prios);
            let b = crate::kernel::select::choice(mx.waiters, prios);
            assert(n == mx.waiters[b]);
            assert(k.waiter_ok(mx.waiters[b], BlockReason::Mutex(m)));
            assert(n != tid);
            assert(mx.owner == Some(tid));
            let tn = kr.tasks[n as int];
            assert(tn.held_mutexes == k.tasks[n as int].held_mutexes);
            assert(k.mutexes[m as int].owner == Some(n) <==> k.tasks[n as int].held_mutexes.contains(m));
            assert(k.tasks[n as int].held_mutexes.no_duplicates());
            lemma_push_new(tn.held_mutexes, m);
            let k3 = kr.set_task(n, TaskView { held_mutexes: tn.held_mutexes.push(m), ..tn }.woken_up().advanced()).logged(
                Event::Lock { task: n, mutex: m },
            );
            assert forall|mm: int, x: int|
                #![trigger k3.mutexes[mm], k3.tasks[x]]
                0 <= mm < k3.mutexes.len() && 0 <= x < k3.tasks.len() implies (k3.mutexes[mm].owner == Some(x as usize)
                    <==> k3.tasks[x].held_mutexes.contains(mm as usize)) by {
                assert(k.mutexes[mm].owner == Some(x as usize) <==> k.tasks[x].held_mutexes.contains(mm as usize));
                assert(kr.mutexes[mm] == k1.mutexes[mm]);
                assert(kr.tasks[x].held_mutexes == k1.tasks[x].held_mutexes);
            }
            assert forall|x: int| 0 <= x < k3.tasks.len() implies (#[trigger] k3.tasks[x]).held_mutexes.no_duplicates() by {
                assert(k.tasks[x].held_mutexes.no_duplicates());
                assert(kr.tasks[x].held_mutexes == k1.tasks[x].held_mutexes);
            }
            if pi {
                lemma_recomputed_holding(k3, n);
                lemma_holding_frame(k3, k3.recomputed(n));
            }
            assert(k.op_unlock(tid, m) == if pi { k3.recomputed(n) } else { k3 });
        },
    }
}

/// One iteration of a quantum keeps owners and held lists in agreement.
proof fn lemma_op_step_holding(k: KernelView, tid: usize)
    requires
        k.wf(),
        holds_match(k),
        tid < k.tasks.len(),
        k.tasks[tid as int].state == TaskState::Running,
    ensures
        holds_match(k.op_step(tid).0),
{
    let t = k.tasks[tid as int];
    let k2 = k.op_step(tid).0;
    assert(k.task_ok(tid as int));
    match t.current_op() {
        None => {
            assert(same_holding(k, k2));
            lemma_holding_frame(k, k2);
        },
        Some(op) => {
            assert(crate::kernel::wellformed::op_valid(t.program[t.pc as int], k.mutexes.len(), k.semaphores.len(), k.queues.len()));
            match op {
                Op::Lock(m) => lemma_lock_holding(k, tid, m),
                Op::Unlock(m) => lemma_unlock_holding(k, tid, m),
                Op::SemSignal(sm) => {
                    let sv = k.semaphores[sm as int];
                    let prios = crate::kernel::select::ranks_of(sv.waiters, k.eff_table());
                    if sv.waiters.len() > 0 {
                        assert(k.sem_ok(sm as int));
                        crate::kernel::select::lemma_choice_exists(sv.waiters, prios);
                        let b = crate::kernel::select::choice(sv.waiters, prios);
                        assert(k.waiter_ok(sv.waiters[b], BlockReason::Semaphore(sm)));
                    }
                    assert(same_holding(k, k2));
                    lemma_holding_frame(k, k2);
                },
                Op::QueueSend(q, v) => {
                    assert(k.queue_ok(q as int));
                    let qv = k.queues[q as int];
                    let ws = qv.recv_waiters;
                    if !qv.is_full() && ws.len() > 0 {
                        let k1 = k.set_queue(q, qv.after_send(v).0).set_task(tid, t.advanced()).logged(
                            Event::QueueSend { task: tid, queue: q, value: v },
                        );
                        let prios = crate::kernel::select::ranks_of(ws, k1.eff_table());
                        crate::kernel::select::lemma_choice_exists(ws, prios);
                        let b = crate::kernel::select::choice(ws, prios);
                        assert(ws[b] < k.tasks.len());
                    }
                    assert(same_holding(k, k2));
                    lemma_holding_frame(k, k2);
                },
                Op::QueueRecv(q) => {
                    assert(k.queue_ok(q as int));
                    let qv = k.queues[q as int];
                    let ws = qv.send_waiters;
                    if qv.buf.len() > 0 && ws.len() > 0 {
                        let k1 = k.set_queue(q, qv.after_recv().0).set_task(tid, t.advanced()).logged(
                            Event::QueueRecv { task: tid, queue: q, value: qv.buf[0] },
                        );
                        let prios = crate::kernel::select::ranks_of(ws, k1.eff_table());
                        crate::kernel::select::lemma_choice_exists(ws, prios);
                        let b = crate::kernel::select::choice(ws, prios);
                        assert(ws[b] < k.tasks.len());
                    }
                    assert(same_holding(k, k2));
                    lemma_holding_frame(k, k2);
                },
                _ => {
                    assert(same_holding(k, k2));
                    lemma_holding_frame(k, k2);
                },
            }
        },
    }
}

/// A quantum keeps owners and held lists in agreement.
proof fn lemma_quantum_holding(k: KernelView, tid: usize)
    requires
        k.wf(),
        holds_match(k),
        tid < k.tasks.len(),
        k.tasks[tid as int].state == TaskState::Running,
    ensures
        holds_match(k.quantum(tid)),
    decreases k.ops_left(tid),
{
    let (k1, go_on) = k.op_step(tid);
    lemma_op_step_holding(k, tid);
    k.lemma_op_step(tid);
    if go_on && k.makes_progress(k1, tid) {
        lemma_quantum_holding(k1, tid);
    }
}

/// One tick keeps owners and held lists in agreement.
proof fn lemma_stepped_holding(k: KernelView)
    requires
        k.wf(),
        holds_match(k),
    ensures
        holds_match(k.stepped()),
{
    let ks = k.serviced();
    k.lemma_serviced_wf();
    assert(same_holding(k, ks));
    lemma_holding_frame(k, ks);
    let kr = ks.recorded();
    ks.lemma_recorded_wf();
    lemma_holding_frame(ks, kr);
    match picked(ks.tasks) {
        None => {
            lemma_holding_frame(kr, k.stepped());
        },
        Some(tid) => {
            crate::kernel::laws::law_pick_is_highest_ready(ks.tasks);
            let top = max_eff(ready_entries(ks.tasks, ks.tasks.len() as int));
            let kd = kr.dispatch_prep(tid, top);
            kr.lemma_dispatch_prep_wf(tid, top);
            assert(same_holding(kr, kd));
            lemma_holding_frame(kr, kd);
            lemma_quantum_holding(kd, tid);
        },
    }
}

/// Mutual exclusion, seen from the tasks: over any run of a well-formed kernel in
/// which every mutex's owner lists it, every listed mutex is owned by the task that
/// lists it, and no task lists a mutex twice (as in every kernel before its first
/// lock), that stays so at every tick, whether inheritance is on or off. So no
/// mutex ever has two holders that believe they hold it.
pub proof fn law_holders_and_lists_agree(k: KernelView, n: nat)
    requires
        k.wf(),
        holds_match(k),
    ensures
        holds_match(k.run_for(n)),
    decreases n,
{
    if n > 0 {
        lemma_stepped_holding(k);
        crate::kernel::accounting::lemma_stepped_balanced(k);
        law_holders_and_lists_agree(k.stepped(), (n - 1) as nat);
    }
}

} // verus!
