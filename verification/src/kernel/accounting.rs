//! Every transition of the kernel is accounted for by the events it logs: the
//! lock, unlock, send, receive, wait and signal events appended in a step replay
//! exactly how the mutexes, queues and semaphores changed in it.
use vstd::prelude::*;
use crate::kernel::{Event, KernelView};
use crate::kernel::ledger::{
    all_quiet, is_quiet, ledger, lemma_concat, lemma_ledger_trans, lemma_quiet, lemma_single, mutex_after,
    mutex_replay, queue_received, queue_sent, received_by, sem_balanced, sem_signals, sem_takes, sent_by,
    signals_in, takes_in,
};
use crate::kernel::model::{is_ready, max_eff, miss_events, picked, ready_entries, release_events, TickRecordView};
use crate::kernel::task::{BlockReason, Op, TaskState, TaskView};
use crate::kernel::wellformed::op_valid;

verus! {

/// The events `k2` logged after those of `k`.
pub open spec fn appended(k: KernelView, k2: KernelView) -> Seq<Event> {
    k2.log.skip(k.log.len() as int)
}

/// `k2`'s log extends `k`'s, and the events it added account for every change of
/// the mutexes, queues and semaphores between the two.
pub open spec fn balanced(k: KernelView, k2: KernelView) -> bool {
    ledger(k, k2, appended(k, k2))
}

/// `k2` has the same mutex owners, queue contents and semaphore units as `k`.
pub open spec fn same_objects(k: KernelView, k2: KernelView) -> bool {
    &&& k2.mutexes.len() == k.mutexes.len()
    &&& k2.queues.len() == k.queues.len()
    &&& k2.semaphores.len() == k.semaphores.len()
    &&& forall|m: int| 0 <= m < k.mutexes.len() ==> #[trigger] k2.mutexes[m].owner == k.mutexes[m].owner
    &&& forall|q: int| 0 <= q < k.queues.len() ==> #[trigger] k2.queues[q].buf == k.queues[q].buf
    &&& forall|s: int|
        0 <= s < k.semaphores.len() ==> #[trigger] k2.semaphores[s].count == k.semaphores[s].count
            && k2.semaphores[s].max == k.semaphores[s].max
}

/// A transition that logs `es` is balanced when `ledger` holds for those events.
pub proof fn lemma_balanced_of(k: KernelView, k2: KernelView, es: Seq<Event>)
    requires
        ledger(k, k2, es),
    ensures
        balanced(k, k2),
{
    assert(appended(k, k2) =~= es);
}

/// A transition that keeps every object and logs only quiet events is balanced.
pub proof fn lemma_quiet_step(k: KernelView, k2: KernelView, es: Seq<Event>)
    requires
        same_objects(k, k2),
        k2.log == k.log + es,
        all_quiet(es),
    ensures
        balanced(k, k2),
{
    lemma_quiet(es);
    assert forall|q: int| 0 <= q < k.queues.len() implies k.queues[q].buf + #[trigger] queue_sent(es, q as usize)
        == queue_received(es, q as usize) + k2.queues[q].buf by {
        assert(k.queues[q].buf + Seq::<u32>::empty() =~= Seq::<u32>::empty() + k.queues[q].buf);
    }
    assert forall|s: int| 0 <= s < k.semaphores.len() implies #[trigger] k2.semaphores[s].max == k.semaphores[s].max by {
        assert(k2.semaphores[s].count == k.semaphores[s].count);
    }
    assert forall|m: int| 0 <= m < k.mutexes.len() implies #[trigger] mutex_replay(es, m as usize, k.mutexes[m].owner)
        == Some(k2.mutexes[m].owner) by {
        assert(k2.mutexes[m].owner == k.mutexes[m].owner);
        assert(mutex_replay(es, m as usize, k.mutexes[m].owner) == Some(k.mutexes[m].owner));
    }
    lemma_balanced_of(k, k2, es);
}

/// A transition that keeps every object and logs one quiet event is balanced.
pub proof fn lemma_quiet_event(k: KernelView, k2: KernelView, e: Event)
    requires
        same_objects(k, k2),
        k2.log == k.log.push(e),
        is_quiet(e),
    ensures
        balanced(k, k2),
{
    assert(k.log.push(e) =~= k.log + seq![e]);
    assert(all_quiet(seq![e]));
    lemma_quiet_step(k, k2, seq![e]);
}

/// A transition that keeps every object and logs nothing is balanced.
pub proof fn lemma_silent(k: KernelView, k2: KernelView)
    requires
        same_objects(k, k2),
        k2.log == k.log,
    ensures
        balanced(k, k2),
{
    assert(k.log + Seq::<Event>::empty() =~= k.log);
    lemma_quiet_step(k, k2, Seq::empty());
}

/// Balanced transitions compose.
pub proof fn lemma_chain(k1: KernelView, k2: KernelView, k3: KernelView)
    requires
        balanced(k1, k2),
        balanced(k2, k3),
    ensures
        balanced(k1, k3),
{
    let a = appended(k1, k2);
    let b = appended(k2, k3);
    lemma_ledger_trans(k1, k2, k3, a, b);
    lemma_balanced_of(k1, k3, a + b);
}

/// The inheritance walk only boosts priorities and logs `Inherit` events.
pub proof fn lemma_inherited_balanced(k: KernelView, current: usize)
    ensures
        balanced(k, k.inherited(current)),
    decreases crate::kernel::model::count_below(k.tasks, k.tasks[current as int].eff_priority),
{
    let r = k.inherited(current);
    let boosts = current < k.tasks.len() && match k.tasks[current as int].blocked_on {
        Some(BlockReason::Mutex(mid)) => mid < k.mutexes.len() && match k.mutexes[mid as int].owner {
            Some(o) => o < k.tasks.len() && k.tasks[current as int].eff_priority > k.tasks[o as int].eff_priority,
            None => false,
        },
        _ => false,
    };
    if boosts {
        let mid = k.tasks[current as int].blocked_on->Some_0->Mutex_0;
        let o = k.mutexes[mid as int].owner->Some_0;
        let want = k.tasks[current as int].eff_priority;
        let e = Event::Inherit { holder: o, boosted_to: want, waiter: current };
        let k1 = k.set_task(o, k.tasks[o as int].with_eff(want)).logged(e);
        assert(r == k1.inherited(o));
        crate::kernel::model::lemma_count_below_raise(k.tasks, o as int, k.tasks[o as int].with_eff(want), want);
        lemma_quiet_event(k, k1, e);
        lemma_inherited_balanced(k1, o);
        lemma_chain(k, k1, r);
    } else {
        assert(r == k);
        lemma_silent(k, r);
    }
}

/// Recomputing a holder's priority logs at most a `Restore` event.
pub proof fn lemma_recomputed_balanced(k: KernelView, holder: usize)
    ensures
        balanced(k, k.recomputed(holder)),
{
    let p = k.entitled(holder);
    if p != k.tasks[holder as int].eff_priority {
        lemma_quiet_event(k, k.recomputed(holder), Event::Restore { holder, to: p });
    } else {
        lemma_silent(k, k.recomputed(holder));
    }
}

/// Completing a job logs only its `Complete` event.
pub proof fn lemma_completed_balanced(k: KernelView, tid: usize)
    ensures
        balanced(k, k.completed(tid)),
{
    lemma_quiet_event(k, k.completed(tid), Event::Complete { task: tid });
}

/// A transition that logs the one event `e` is balanced when `e` accounts for how
/// each object changed.
pub proof fn lemma_one_event(k: KernelView, k2: KernelView, e: Event)
    requires
        k2.log == k.log.push(e),
        k2.mutexes.len() == k.mutexes.len(),
        k2.queues.len() == k.queues.len(),
        k2.semaphores.len() == k.semaphores.len(),
        forall|m: int| 0 <= m < k.mutexes.len() ==> mutex_after(e, m as usize, k.mutexes[m].owner) == Some(
            #[trigger] k2.mutexes[m].owner,
        ),
        forall|q: int|
            0 <= q < k.queues.len() ==> k.queues[q].buf + sent_by(e, q as usize) == received_by(e, q as usize)
                + #[trigger] k2.queues[q].buf,
        forall|s: int|
            0 <= s < k.semaphores.len() ==> #[trigger] k2.semaphores[s].max == k.semaphores[s].max && sem_balanced(
                k.semaphores[s].count as int,
                k2.semaphores[s].count as int,
                k.semaphores[s].max as int,
                takes_in(e, s as usize) as int,
                signals_in(e, s as usize) as int,
            ),
    ensures
        balanced(k, k2),
{
    lemma_single(e);
    assert(k.log.push(e) =~= k.log + seq![e]);
    assert forall|m: int| 0 <= m < k.mutexes.len() implies #[trigger] mutex_replay(seq![e], m as usize, k.mutexes[m].owner)
        == Some(k2.mutexes[m].owner) by {
        assert(mutex_after(e, m as usize, k.mutexes[m].owner) == Some(k2.mutexes[m].owner));
    }
    assert forall|q: int| 0 <= q < k.queues.len() implies k.queues[q].buf + #[trigger] queue_sent(seq![e], q as usize)
        == queue_received(seq![e], q as usize) + k2.queues[q].buf by {
        assert(k.queues[q].buf + sent_by(e, q as usize) == received_by(e, q as usize) + k2.queues[q].buf);
    }
    assert forall|s: int| 0 <= s < k.semaphores.len() implies sem_balanced(
        k.semaphores[s].count as int,
        k2.semaphores[s].count as int,
        k.semaphores[s].max as int,
        sem_takes(seq![e], s as usize) as int,
        #[trigger] sem_signals(seq![e], s as usize) as int,
    ) by {
        assert(k2.semaphores[s].max == k.semaphores[s].max);
    }
    lemma_balanced_of(k, k2, seq![e]);
}

/// A transition that logs `e1`, then quiet events `mid`, then `e2` is balanced when
/// the two events together account for how each object changed.
pub proof fn lemma_two_events(k: KernelView, k2: KernelView, e1: Event, mid: Seq<Event>, e2: Event)
    requires
        k2.log == k.log + (seq![e1] + mid + seq![e2]),
        all_quiet(mid),
        k2.mutexes.len() == k.mutexes.len(),
        k2.queues.len() == k.queues.len(),
        k2.semaphores.len() == k.semaphores.len(),
        forall|m: int|
            0 <= m < k.mutexes.len() ==> match mutex_after(e1, m as usize, k.mutexes[m].owner) {
                Some(o1) => mutex_after(e2, m as usize, o1) == Some(#[trigger] k2.mutexes[m].owner),
                None => false,
            },
        forall|q: int|
            0 <= q < k.queues.len() ==> k.queues[q].buf + (sent_by(e1, q as usize) + sent_by(e2, q as usize)) == (
            received_by(e1, q as usize) + received_by(e2, q as usize)) + #[trigger] k2.queues[q].buf,
        forall|s: int|
            0 <= s < k.semaphores.len() ==> #[trigger] k2.semaphores[s].max == k.semaphores[s].max && sem_balanced(
                k.semaphores[s].count as int,
                k2.semaphores[s].count as int,
                k.semaphores[s].max as int,
                (takes_in(e1, s as usize) + takes_in(e2, s as usize)) as int,
                (signals_in(e1, s as usize) + signals_in(e2, s as usize)) as int,
            ),
    ensures
        balanced(k, k2),
{
    let a = seq![e1];
    let b = seq![e2];
    let es = a + mid + b;
    lemma_single(e1);
    lemma_single(e2);
    lemma_quiet(mid);
    lemma_concat(a, mid);
    lemma_concat(a + mid, b);
    assert forall|m: int| 0 <= m < k.mutexes.len() implies #[trigger] mutex_replay(es, m as usize, k.mutexes[m].owner)
        == Some(k2.mutexes[m].owner) by {
        let mm = m as usize;
        let o = k.mutexes[m].owner;
        assert(mutex_replay(a, mm, o) == mutex_after(e1, mm, o));
        let o1 = mutex_after(e1, mm, o)->Some_0;
        assert(mutex_replay(mid, mm, o1) == Some(o1));
        assert(mutex_replay(a + mid, mm, o) == Some(o1));
        assert(mutex_replay(b, mm, o1) == mutex_after(e2, mm, o1));
        assert(k2.mutexes[m].owner == k2.mutexes[m].owner);
    }
    assert forall|q: int| 0 <= q < k.queues.len() implies k.queues[q].buf + #[trigger] queue_sent(es, q as usize)
        == queue_received(es, q as usize) + k2.queues[q].buf by {
        let qq = q as usize;
        assert(queue_sent(a + mid, qq) =~= sent_by(e1, qq));
        assert(queue_received(a + mid, qq) =~= received_by(e1, qq));
        assert(queue_sent(es, qq) == sent_by(e1, qq) + sent_by(e2, qq));
        assert(queue_received(es, qq) == received_by(e1, qq) + received_by(e2, qq));
        assert(k2.queues[q].buf == k2.queues[q].buf);
    }
    assert forall|s: int| 0 <= s < k.semaphores.len() implies sem_balanced(
        k.semaphores[s].count as int,
        k2.semaphores[s].count as int,
        k.semaphores[s].max as int,
        sem_takes(es, s as usize) as int,
        #[trigger] sem_signals(es, s as usize) as int,
    ) by {
        let ss = s as usize;
        assert(sem_takes(es, ss) == takes_in(e1, ss) + takes_in(e2, ss));
        assert(sem_signals(es, ss) == signals_in(e1, ss) + signals_in(e2, ss));
        assert(k2.semaphores[s].max == k.semaphores[s].max);
    }
    lemma_balanced_of(k, k2, es);
}

/// Taking a mutex logs the `Lock` that accounts for it; blocking on it logs only
/// quiet events.
pub proof fn lemma_lock_balanced(k: KernelView, tid: usize, m: usize)
    requires
        m < k.mutexes.len(),
        tid < k.tasks.len(),
        k.wf(),
    ensures
        balanced(k, k.op_lock(tid, m).0),
{
    let t = k.tasks[tid as int];
    let mx = k.mutexes[m as int];
    match mx.owner {
        None => {
            let e = Event::Lock { task: tid, mutex: m };
            lemma_one_event(k, k.op_lock(tid, m).0, e);
        },
        Some(owner) => {
            let e = Event::BlockOnMutex { task: tid, mutex: m, owner };
            let k1 = k.set_mutex(m, mx.with_waiter(tid)).set_task(tid, t.parked(BlockReason::Mutex(m))).idle_cpu().logged(e);
            lemma_quiet_event(k, k1, e);
            if k.config.priority_inheritance {
                lemma_inherited_balanced(k1, tid);
                lemma_chain(k, k1, k1.inherited(tid));
            }
        },
    }
}

/// Releasing a mutex logs the `Unlock` and, when it is handed on, the waiter's
/// `Lock`, which together account for its new owner.
pub proof fn lemma_unlock_balanced(k: KernelView, tid: usize, m: usize)
    requires
        m < k.mutexes.len(),
        tid < k.tasks.len(),
        k.wf(),
    ensures
        balanced(k, k.op_unlock(tid, m)),
{
    let t = k.tasks[tid as int];
    let mx = k.mutexes[m as int];
    let (mv, next) = mx.released(tid, crate::kernel::select::ranks_of(mx.waiters, k.eff_table()));
    let e1 = Event::Unlock { task: tid, mutex: m };
    let k1 = k.set_mutex(m, mv).set_task(
        tid,
        TaskView { held_mutexes: crate::kernel::model::without_value(t.held_mutexes, m), ..t }.advanced(),
    ).logged(e1);
    let pi = k.config.priority_inheritance;
    let k2 = if pi {
        k1.recomputed(tid)
    } else {
        k1
    };
    if pi {
        lemma_recomputed_balanced(k1, tid);
    } else {
        lemma_silent(k1, k2);
    }
    match next {
        Some(n) => {
            assert(mx.owner == Some(tid) && mx.waiters.len() > 0);
            assert(k.mutex_ok(m as int));
            let tn = k2.tasks[n as int];
            let e2 = Event::Lock { task: n, mutex: m };
            let k3 = k2.set_task(
                n,
                TaskView { held_mutexes: tn.held_mutexes.push(m), ..tn }.woken_up().advanced(),
            ).logged(e2);
            let mid = appended(k1, k2);
            assert(all_quiet(mid)) by {
                if pi && k1.entitled(tid) != k1.tasks[tid as int].eff_priority {
                    assert(mid =~= seq![Event::Restore { holder: tid, to: k1.entitled(tid) }]);
                } else {
                    assert(mid =~= Seq::<Event>::empty());
                }
            }
            assert(k2.log == k1.log + mid);
            assert(k3.log =~= k.log + (seq![e1] + mid + seq![e2]));
            assert(k3.mutexes == k.mutexes.update(m as int, mv));
            assert forall|q: int| 0 <= q < k.queues.len() implies k.queues[q].buf + (sent_by(e1, q as usize) + sent_by(
                e2,
                q as usize,
            )) == (received_by(e1, q as usize) + received_by(e2, q as usize)) + #[trigger] k3.queues[q].buf by {
                assert(k.queues[q].buf + (Seq::<u32>::empty() + Seq::<u32>::empty()) =~= (Seq::<u32>::empty()
                    + Seq::<u32>::empty()) + k.queues[q].buf);
            }
            lemma_two_events(k, k3, e1, mid, e2);
            if pi {
                lemma_recomputed_balanced(k3, n);
                lemma_chain(k, k3, k3.recomputed(n));
            }
        },
        None => {
            assert forall|q: int| 0 <= q < k.queues.len() implies k.queues[q].buf + sent_by(e1, q as usize) == received_by(
                e1,
                q as usize,
            ) + #[trigger] k1.queues[q].buf by {
                assert(k.queues[q].buf + Seq::<u32>::empty() =~= Seq::<u32>::empty() + k.queues[q].buf);
            }
            lemma_one_event(k, k1, e1);
            lemma_chain(k, k1, k2);
        },
    }
}

/// A wait takes a unit with the `SemWait` that accounts for it, or blocks quietly.
pub proof fn lemma_sem_wait_balanced(k: KernelView, tid: usize, s: usize)
    requires
        s < k.semaphores.len(),
        tid < k.tasks.len(),
        k.wf(),
    ensures
        balanced(k, k.op_sem_wait(tid, s).0),
{
    let sv = k.semaphores[s as int];
    if sv.count > 0 {
        let e = Event::SemWait { task: tid, sem: s };
        let k2 = k.op_sem_wait(tid, s).0;
        assert forall|q: int| 0 <= q < k.queues.len() implies k.queues[q].buf + sent_by(e, q as usize) == received_by(
            e,
            q as usize,
        ) + #[trigger] k2.queues[q].buf by {
            assert(k.queues[q].buf + Seq::<u32>::empty() =~= Seq::<u32>::empty() + k.queues[q].buf);
        }
        lemma_one_event(k, k2, e);
    } else {
        lemma_quiet_event(k, k.op_sem_wait(tid, s).0, Event::SemBlock { task: tid, sem: s });
    }
}

/// A signal logs `SemSignal` and, when it hands the unit to a waiter, that waiter's
/// `SemWait`.
pub proof fn lemma_sem_signal_balanced(k: KernelView, tid: usize, s: usize)
    requires
        s < k.semaphores.len(),
        tid < k.tasks.len(),
        k.wf(),
    ensures
        balanced(k, k.op_sem_signal(tid, s)),
{
    let sv = k.semaphores[s as int];
    let (sv2, woken) = sv.signaled(crate::kernel::select::ranks_of(sv.waiters, k.eff_table()));
    let e1 = Event::SemSignal { task: tid, sem: s };
    let k1 = k.set_semaphore(s, sv2).set_task(tid, k.tasks[tid as int].advanced()).logged(e1);
    let k2 = k.op_sem_signal(tid, s);
    match woken {
        Some(w) => {
            let e2 = Event::SemWait { task: w, sem: s };
            assert(k2.log =~= k.log + (seq![e1] + Seq::<Event>::empty() + seq![e2]));
            assert forall|q: int| 0 <= q < k.queues.len() implies k.queues[q].buf + (sent_by(e1, q as usize) + sent_by(
                e2,
                q as usize,
            )) == (received_by(e1, q as usize) + received_by(e2, q as usize)) + #[trigger] k2.queues[q].buf by {
                assert(k.queues[q].buf + (Seq::<u32>::empty() + Seq::<u32>::empty()) =~= (Seq::<u32>::empty()
                    + Seq::<u32>::empty()) + k.queues[q].buf);
            }
            lemma_two_events(k, k2, e1, Seq::empty(), e2);
        },
        None => {
            assert forall|q: int| 0 <= q < k.queues.len() implies k.queues[q].buf + sent_by(e1, q as usize) == received_by(
                e1,
                q as usize,
            ) + #[trigger] k2.queues[q].buf by {
                assert(k.queues[q].buf + Seq::<u32>::empty() =~= Seq::<u32>::empty() + k.queues[q].buf);
            }
            lemma_one_event(k, k2, e1);
        },
    }
}

/// An accepted send logs the `QueueSend` that accounts for the new value; a send to
/// a full queue blocks quietly.
pub proof fn lemma_queue_send_balanced(k: KernelView, tid: usize, q: usize, value: u32)
    requires
        q < k.queues.len(),
        tid < k.tasks.len(),
        k.wf(),
    ensures
        balanced(k, k.op_queue_send(tid, q, value).0),
{
    let qv = k.queues[q as int];
    let k2 = k.op_queue_send(tid, q, value).0;
    if qv.after_send(value).1 {
        let e = Event::QueueSend { task: tid, queue: q, value };
        assert forall|x: int| 0 <= x < k.queues.len() implies k.queues[x].buf + sent_by(e, x as usize) == received_by(
            e,
            x as usize,
        ) + #[trigger] k2.queues[x].buf by {
            if x == q {
                assert(k.queues[x].buf + seq![value] =~= Seq::<u32>::empty() + k2.queues[x].buf);
            } else {
                assert(k.queues[x].buf + Seq::<u32>::empty() =~= Seq::<u32>::empty() + k.queues[x].buf);
            }
        }
        lemma_one_event(k, k2, e);
    } else {
        lemma_quiet_event(k, k2, Event::QueueBlock { task: tid, queue: q });
    }
}

/// A receive from a non-empty queue logs the `QueueRecv` of its oldest value; one
/// from an empty queue blocks quietly.
pub proof fn lemma_queue_recv_balanced(k: KernelView, tid: usize, q: usize)
    requires
        q < k.queues.len(),
        tid < k.tasks.len(),
        k.wf(),
    ensures
        balanced(k, k.op_queue_recv(tid, q).0),
{
    let qv = k.queues[q as int];
    let k2 = k.op_queue_recv(tid, q).0;
    match qv.after_recv().1 {
        Some(value) => {
            let e = Event::QueueRecv { task: tid, queue: q, value };
            assert forall|x: int| 0 <= x < k.queues.len() implies k.queues[x].buf + sent_by(e, x as usize) == received_by(
                e,
                x as usize,
            ) + #[trigger] k2.queues[x].buf by {
                if x == q {
                    assert(k.queues[x].buf + Seq::<u32>::empty() =~= seq![value] + k2.queues[x].buf);
                } else {
                    assert(k.queues[x].buf + Seq::<u32>::empty() =~= Seq::<u32>::empty() + k.queues[x].buf);
                }
            }
            lemma_one_event(k, k2, e);
        },
        None => {
            lemma_quiet_event(k, k2, Event::QueueBlock { task: tid, queue: q });
        },
    }
}

/// One iteration of a quantum is accounted for by the events it logs.
pub proof fn lemma_op_step_balanced(k: KernelView, tid: usize)
    requires
        k.wf(),
        tid < k.tasks.len(),
    ensures
        balanced(k, k.op_step(tid).0),
{
    let t = k.tasks[tid as int];
    let k2 = k.op_step(tid).0;
    assert(k.task_ok(tid as int));
    match t.current_op() {
        None => {
            lemma_completed_balanced(k, tid);
        },
        Some(op) => {
            assert(op_valid(t.program[t.pc as int], k.mutexes.len(), k.semaphores.len(), k.queues.len()));
            match op {
                Op::Compute(n) => {
                    let cr = if t.compute_remaining == 0 { n } else { t.compute_remaining };
                    if cr == 0 {
                        lemma_silent(k, k2);
                    } else {
                        let t2 = TaskView { compute_remaining: (cr - 1) as u64, cpu_ticks: (t.cpu_ticks + 1) as u64, ..t };
                        let t3 = t2.advanced();
                        if cr == 1 && t3.pc >= t3.program.len() {
                            let k1 = k.set_task(tid, t3);
                            lemma_silent(k, k1);
                            lemma_completed_balanced(k1, tid);
                            lemma_chain(k, k1, k2);
                        } else {
                            lemma_silent(k, k2);
                        }
                    }
                },
                Op::Delay(n) => {
                    if n == 0 {
                        lemma_silent(k, k2);
                    } else {
                        lemma_quiet_event(k, k2, Event::Sleep { task: tid, until: (k.now + n) as u64 });
                    }
                },
                Op::GpioSet(pin, level) => {
                    lemma_quiet_event(k, k2, Event::Gpio { task: tid, pin, level });
                },
                Op::GpioToggle(pin) => {
                    lemma_quiet_event(k, k2, k2.log.last());
                },
                Op::Uart(text) => {
                    lemma_quiet_event(k, k2, Event::Uart { task: tid, text });
                },
                Op::Lock(m) => {
                    lemma_lock_balanced(k, tid, m);
                },
                Op::Unlock(m) => {
                    lemma_unlock_balanced(k, tid, m);
                },
                Op::SemWait(x) => {
                    lemma_sem_wait_balanced(k, tid, x);
                },
                Op::SemSignal(x) => {
                    lemma_sem_signal_balanced(k, tid, x);
                },
                Op::QueueSend(q, v) => {
                    lemma_queue_send_balanced(k, tid, q, v);
                },
                Op::QueueRecv(q) => {
                    lemma_queue_recv_balanced(k, tid, q);
                },
            }
        },
    }
}

/// A whole quantum is accounted for by the events it logs.
pub proof fn lemma_quantum_balanced(k: KernelView, tid: usize)
    requires
        k.wf(),
        tid < k.tasks.len(),
        k.tasks[tid as int].state == TaskState::Running,
    ensures
        balanced(k, k.quantum(tid)),
        k.quantum(tid).wf(),
    decreases k.ops_left(tid),
{
    let (k1, go_on) = k.op_step(tid);
    lemma_op_step_balanced(k, tid);
    k.lemma_op_step(tid);
    if go_on && k.makes_progress(k1, tid) {
        lemma_quantum_balanced(k1, tid);
        lemma_chain(k, k1, k1.quantum(tid));
    }
}

/// Release events are quiet.
proof fn lemma_release_events_quiet(ts: Seq<TaskView>, now: u64, n: int)
    ensures
        all_quiet(release_events(ts, now, n)),
    decreases n,
{
    if n > 0 {
        lemma_release_events_quiet(ts, now, n - 1);
    }
}

/// Deadline-miss events are quiet.
proof fn lemma_miss_events_quiet(ts: Seq<TaskView>, now: u64, n: int)
    ensures
        all_quiet(miss_events(ts, now, n)),
    decreases n,
{
    if n > 0 {
        lemma_miss_events_quiet(ts, now, n - 1);
    }
}

/// The clock tick and the tick ISR touch no synchronization object.
pub proof fn lemma_serviced_balanced(k: KernelView)
    ensures
        balanced(k, k.serviced()),
{
    let k1 = k.clocked();
    lemma_quiet_event(k, k1, Event::Tick((k.now + 1) as u64));
    if k.timer_due() {
        let k2 = k1.ticked();
        let n = k1.tasks.len();
        let now = k1.now;
        let t1 = Seq::new(n, |i: int| crate::kernel::model::released(k1.tasks[i], now));
        let t2 = Seq::new(n, |i: int| crate::kernel::model::slept(t1[i], now));
        let es = release_events(k1.tasks, now, n as int) + miss_events(t2, now, n as int);
        lemma_release_events_quiet(k1.tasks, now, n as int);
        lemma_miss_events_quiet(t2, now, n as int);
        assert(all_quiet(es)) by {
            let a = release_events(k1.tasks, now, n as int);
            let b = miss_events(t2, now, n as int);
            assert forall|i: int| 0 <= i < es.len() implies is_quiet(#[trigger] es[i]) by {
                if i < a.len() {
                    assert(es[i] == a[i]);
                } else {
                    assert(es[i] == b[i - a.len()]);
                }
            }
        }
        assert(k2.log =~= k1.log + es);
        lemma_quiet_step(k1, k2, es);
        lemma_chain(k, k1, k2);
    }
}

/// Dispatching logs only a possible `Preempt` and the `Run`.
pub proof fn lemma_dispatch_prep_balanced(k: KernelView, tid: usize, top: u8)
    ensures
        balanced(k, k.dispatch_prep(tid, top)),
{
    let k1 = if k.tasks[tid as int].eff_priority < top {
        KernelView { invariant_violations: (k.invariant_violations + 1) as u64, ..k }
    } else {
        k
    };
    lemma_silent(k, k1);
    let k2 = match k.running {
        Some(prev) => if prev != tid && k1.tasks[prev as int].state == TaskState::Running {
            let tp = k1.tasks[prev as int];
            k1.set_task(prev, TaskView { state: TaskState::Ready, preemptions: (tp.preemptions + 1) as u64, ..tp }).logged(
                Event::Preempt { preempted: prev, by: tid },
            )
        } else {
            k1
        },
        None => k1,
    };
    if k2.log == k1.log {
        lemma_silent(k1, k2);
    } else {
        lemma_quiet_event(k1, k2, Event::Preempt { preempted: k.running->Some_0, by: tid });
    }
    lemma_chain(k, k1, k2);
    let k3 = k.dispatch_prep(tid, top);
    lemma_quiet_event(k2, k3, Event::Run { task: tid });
    lemma_chain(k, k2, k3);
}

/// One tick of the kernel is accounted for by the events it logs, and keeps the
/// kernel well formed.
pub proof fn lemma_stepped_balanced(k: KernelView)
    requires
        k.wf(),
    ensures
        balanced(k, k.stepped()),
        k.stepped().wf(),
{
    let ks = k.serviced();
    lemma_serviced_balanced(k);
    k.lemma_serviced_wf();
    let kr = ks.recorded();
    lemma_silent(ks, kr);
    ks.lemma_recorded_wf();
    lemma_chain(k, ks, kr);
    let ready = ready_entries(ks.tasks, ks.tasks.len() as int);
    match picked(ks.tasks) {
        None => {
            assert(k.stepped() == KernelView {
                running: None,
                idle_ticks: (kr.idle_ticks + 1) as u64,
                log: kr.log.push(Event::Idle),
                ..kr
            });
            lemma_quiet_event(kr, k.stepped(), Event::Idle);
            kr.lemma_wf_same_structure(k.stepped());
            lemma_chain(k, kr, k.stepped());
        },
        Some(tid) => {
            crate::kernel::laws::law_pick_is_highest_ready(ks.tasks);
            let top = max_eff(ready);
            let kd = kr.dispatch_prep(tid, top);
            lemma_dispatch_prep_balanced(kr, tid, top);
            kr.lemma_dispatch_prep_wf(tid, top);
            lemma_quantum_balanced(kd, tid);
            lemma_chain(k, kr, kd);
            lemma_chain(k, kd, kd.quantum(tid));
        },
    }
}

/// A run of `n` ticks is accounted for by the events it logs.
pub proof fn lemma_run_balanced(k: KernelView, n: nat)
    requires
        k.wf(),
    ensures
        balanced(k, k.run_for(n)),
        k.run_for(n).wf(),
    decreases n,
{
    if n == 0 {
        lemma_silent(k, k);
    } else {
        lemma_stepped_balanced(k);
        lemma_run_balanced(k.stepped(), (n - 1) as nat);
        lemma_chain(k, k.stepped(), k.stepped().run_for((n - 1) as nat));
    }
}

/// The event log accounts for the synchronization objects over any run of a
/// well-formed kernel. Replaying the lock and unlock events that `n` ticks append
/// takes every mutex from its old owner to its new one and never finds a lock of a
/// mutex that is already held: no two tasks ever hold a mutex at once. Every queue's
/// old contents followed by the values its send events carried equal the values its
/// receive events took followed by its new contents: values come out in the order
/// they went in, none lost and none duplicated. Every semaphore's units are
/// conserved: its new count plus the units taken never exceeds its old count plus
/// the signals, with equality unless a signal met the saturation limit.
pub proof fn law_log_accounts_for_run(k: KernelView, n: nat)
    requires
        k.wf(),
    ensures
        ledger(k, k.run_for(n), k.run_for(n).log.skip(k.log.len() as int)),
        k.run_for(n).wf(),
{
    lemma_run_balanced(k, n);
}

/// The inheritance walk leaves the violation counter, the clock, the records and the
/// idle count alone.
proof fn lemma_inherited_counter(k: KernelView, current: usize)
    ensures
        k.inherited(current).invariant_violations == k.invariant_violations,
        k.inherited(current).now == k.now,
        k.inherited(current).records == k.records,
        k.inherited(current).idle_ticks == k.idle_ticks,
    decreases crate::kernel::model::count_below(k.tasks, k.tasks[current as int].eff_priority),
{
    let boosts = current < k.tasks.len() && match k.tasks[current as int].blocked_on {
        Some(BlockReason::Mutex(mid)) => mid < k.mutexes.len() && match k.mutexes[mid as int].owner {
            Some(o) => o < k.tasks.len() && k.tasks[current as int].eff_priority > k.tasks[o as int].eff_priority,
            None => false,
        },
        _ => false,
    };
    if boosts {
        let mid = k.tasks[current as int].blocked_on->Some_0->Mutex_0;
        let o = k.mutexes[mid as int].owner->Some_0;
        let want = k.tasks[current as int].eff_priority;
        let e = Event::Inherit { holder: o, boosted_to: want, waiter: current };
        let k1 = k.set_task(o, k.tasks[o as int].with_eff(want)).logged(e);
        crate::kernel::model::lemma_count_below_raise(k.tasks, o as int, k.tasks[o as int].with_eff(want), want);
        lemma_inherited_counter(k1, o);
    }
}

/// A quantum leaves the violation counter, the clock, the records and the idle
/// count alone.
pub(crate) proof fn lemma_quantum_counter(k: KernelView, tid: usize)
    ensures
        k.quantum(tid).invariant_violations == k.invariant_violations,
        k.quantum(tid).now == k.now,
        k.quantum(tid).records == k.records,
        k.quantum(tid).idle_ticks == k.idle_ticks,
    decreases k.ops_left(tid),
{
    let (k1, go_on) = k.op_step(tid);
    let t = k.tasks[tid as int];
    match t.current_op() {
        Some(Op::Lock(m)) => {
            let mx = k.mutexes[m as int];
            if mx.owner is Some {
                let k0 = k.set_mutex(m, mx.with_waiter(tid)).set_task(tid, t.parked(BlockReason::Mutex(m))).idle_cpu().logged(
                    Event::BlockOnMutex { task: tid, mutex: m, owner: mx.owner->Some_0 },
                );
                lemma_inherited_counter(k0, tid);
            }
        },
        _ => {},
    }
    assert(k1.invariant_violations == k.invariant_violations);
    assert(k1.now == k.now && k1.records == k.records && k1.idle_ticks == k.idle_ticks);
    if go_on && k.makes_progress(k1, tid) {
        lemma_quantum_counter(k1, tid);
    }
}

/// The scheduler never runs a task below the highest effective priority among the
/// ready tasks: over any run of a well-formed kernel, the violation counter the
/// kernel keeps for that check never moves.
pub proof fn law_no_priority_violation(k: KernelView, n: nat)
    requires
        k.wf(),
    ensures
        k.run_for(n).invariant_violations == k.invariant_violations,
    decreases n,
{
    if n > 0 {
        let ks = k.serviced();
        k.lemma_serviced_wf();
        match picked(ks.tasks) {
            None => {},
            Some(tid) => {
                let kr = ks.recorded();
                assert forall|i: int| 0 <= i < ks.tasks.len() implies ks.tasks[i].id == i by {
                    assert(ks.task_ok(i));
                }
                crate::kernel::laws::law_pick_carries_top_priority(ks.tasks);
                let top = max_eff(ready_entries(ks.tasks, ks.tasks.len() as int));
                let kd = kr.dispatch_prep(tid, top);
                assert(kd.invariant_violations == k.invariant_violations);
                lemma_quantum_counter(kd, tid);
            },
        }
        lemma_stepped_balanced(k);
        law_no_priority_violation(k.stepped(), (n - 1) as nat);
    }
}

/// One tick of a well-formed kernel: the clock advances by one, and the scheduler
/// appends a record for the new tick whose ready snapshot lists, in task order,
/// the tasks ready after the tick ISR. A task ran exactly when that snapshot is not
/// empty, and then it is the one the scheduler picks (the highest effective
/// priority, the lowest id among equals), carrying the snapshot's highest effective
/// priority. The violation counter does not move, and the idle count grows by one
/// exactly when nothing ran.
pub proof fn law_tick_is_recorded(k: KernelView)
    requires
        k.wf(),
        k.now < u64::MAX,
        k.idle_ticks < u64::MAX,
    ensures
        ({
            let k2 = k.stepped();
            let ks = k.serviced();
            let r = k2.records.last();
            &&& k2.now == k.now + 1
            &&& k2.records.len() == k.records.len() + 1
            &&& k2.records.drop_last() == k.records
            &&& r.tick == k2.now
            &&& r.ready == ready_entries(ks.tasks, ks.tasks.len() as int)
            &&& (r.ran is None <==> r.ready.len() == 0)
            &&& (r.ran matches Some(t) ==> crate::kernel::model::is_pick(ks.tasks, t as int)
                && ks.tasks[t as int].eff_priority == max_eff(r.ready) && r.ready.contains(
                crate::kernel::ReadyEntry {
                    id: t,
                    base: ks.tasks[t as int].base_priority,
                    eff: ks.tasks[t as int].eff_priority,
                },
            ))
            &&& k2.invariant_violations == k.invariant_violations
            &&& k2.idle_ticks == k.idle_ticks + if r.ran is None { 1int } else { 0int }
        }),
{
    let ks = k.serviced();
    k.lemma_serviced_wf();
    let kr = ks.recorded();
    let ready = ready_entries(ks.tasks, ks.tasks.len() as int);
    assert(kr.records.drop_last() =~= k.records);
    assert forall|i: int| 0 <= i < ks.tasks.len() implies ks.tasks[i].id == i by {
        assert(ks.task_ok(i));
    }
    crate::kernel::laws::law_pick_is_highest_ready(ks.tasks);
    crate::kernel::laws::law_pick_carries_top_priority(ks.tasks);
    crate::kernel::laws::lemma_ready_entries(ks.tasks, ks.tasks.len() as int);
    if ready.len() > 0 {
        let j = choose|j: int|
            0 <= j < ks.tasks.len() && is_ready(ks.tasks[j]) && #[trigger] ready[0] == (crate::kernel::ReadyEntry {
                id: ks.tasks[j].id,
                base: ks.tasks[j].base_priority,
                eff: ks.tasks[j].eff_priority,
            });
        assert(picked(ks.tasks) is Some);
    } else {
        assert forall|j: int| 0 <= j < ks.tasks.len() implies !is_ready(ks.tasks[j]) by {
            if is_ready(ks.tasks[j]) {
                assert(ready.contains(
                    crate::kernel::ReadyEntry { id: ks.tasks[j].id, base: ks.tasks[j].base_priority, eff: ks.tasks[j].eff_priority },
                ));
            }
        }
    }
    assert(ks.now == k.now + 1);
    let rec = TickRecordView { tick: ks.now, ran: picked(ks.tasks), ready };
    assert(kr.records == k.records.push(rec));
    law_no_priority_violation(k, 1);
    assert(k.run_for(1) == k.stepped().run_for(0));
    match picked(ks.tasks) {
        None => {
            assert(k.stepped().records == kr.records);
            assert(k.stepped().idle_ticks == k.idle_ticks + 1);
        },
        Some(tid) => {
            let kd = kr.dispatch_prep(tid, max_eff(ready));
            lemma_quantum_counter(kd, tid);
            assert(k.stepped() == kd.quantum(tid));
            assert(kd.records == kr.records);
            assert(kd.idle_ticks == k.idle_ticks);
            assert(kd.now == ks.now);
        },
    }
}

} // verus!
