//! What the event log says about the synchronization objects: replaying the lock,
//! unlock, send, receive, wait and signal events of a tick reproduces how the
//! mutexes, queues and semaphores changed in it.
use vstd::prelude::*;
use crate::kernel::{Event, KernelView};

verus! {

/// What one event does to mutex `m` held by `owner`: `None` when it locks the mutex
/// while it is held. An unlock by the owner frees the mutex; an unlock by anyone
/// else leaves it as it is.
pub open spec fn mutex_after(e: Event, m: usize, owner: Option<usize>) -> Option<Option<usize>> {
    match e {
        Event::Lock { task, mutex } => if mutex != m {
            Some(owner)
        } else if owner is None {
            Some(Some(task))
        } else {
            None
        },
        Event::Unlock { task, mutex } => if mutex == m && owner == Some(task) {
            Some(None)
        } else {
            Some(owner)
        },
        _ => Some(owner),
    }
}

/// The owner of mutex `m` after the events of `es`, starting from `owner`; `None`
/// when some lock event finds the mutex already held.
pub open spec fn mutex_replay(es: Seq<Event>, m: usize, owner: Option<usize>) -> Option<Option<usize>>
    decreases es.len(),
{
    if es.len() == 0 {
        Some(owner)
    } else {
        match mutex_replay(es.drop_last(), m, owner) {
            None => None,
            Some(o) => mutex_after(es.last(), m, o),
        }
    }
}

/// The value one event sends into queue `q`, if any.
pub open spec fn sent_by(e: Event, q: usize) -> Seq<u32> {
    match e {
        Event::QueueSend { queue, value, .. } => if queue == q {
            seq![value]
        } else {
            Seq::empty()
        },
        _ => Seq::empty(),
    }
}

/// The value one event receives from queue `q`, if any.
pub open spec fn received_by(e: Event, q: usize) -> Seq<u32> {
    match e {
        Event::QueueRecv { queue, value, .. } => if queue == q {
            seq![value]
        } else {
            Seq::empty()
        },
        _ => Seq::empty(),
    }
}

/// The values sent into queue `q` by the events of `es`, in order.
pub open spec fn queue_sent(es: Seq<Event>, q: usize) -> Seq<u32>
    decreases es.len(),
{
    if es.len() == 0 {
        Seq::empty()
    } else {
        queue_sent(es.drop_last(), q) + sent_by(es.last(), q)
    }
}

/// The values received from queue `q` by the events of `es`, in order.
pub open spec fn queue_received(es: Seq<Event>, q: usize) -> Seq<u32>
    decreases es.len(),
{
    if es.len() == 0 {
        Seq::empty()
    } else {
        queue_received(es.drop_last(), q) + received_by(es.last(), q)
    }
}

/// Whether one event signals semaphore `s`.
pub open spec fn signals_in(e: Event, s: usize) -> nat {
    match e {
        Event::SemSignal { sem, .. } => if sem == s {
            1
        } else {
            0
        },
        _ => 0,
    }
}

/// Whether one event takes a unit of semaphore `s`.
pub open spec fn takes_in(e: Event, s: usize) -> nat {
    match e {
        Event::SemWait { sem, .. } => if sem == s {
            1
        } else {
            0
        },
        _ => 0,
    }
}

/// The number of signals of semaphore `s` among the events of `es`.
pub open spec fn sem_signals(es: Seq<Event>, s: usize) -> nat
    decreases es.len(),
{
    if es.len() == 0 {
        0
    } else {
        sem_signals(es.drop_last(), s) + signals_in(es.last(), s)
    }
}

/// The number of units of semaphore `s` taken among the events of `es`.
pub open spec fn sem_takes(es: Seq<Event>, s: usize) -> nat
    decreases es.len(),
{
    if es.len() == 0 {
        0
    } else {
        sem_takes(es.drop_last(), s) + takes_in(es.last(), s)
    }
}

/// A log of one event replays as that event.
pub proof fn lemma_single(e: Event)
    ensures
        forall|m: usize, o: Option<usize>| #[trigger] mutex_replay(seq![e], m, o) == mutex_after(e, m, o),
        forall|q: usize| #[trigger] queue_sent(seq![e], q) == sent_by(e, q),
        forall|q: usize| #[trigger] queue_received(seq![e], q) == received_by(e, q),
        forall|s: usize| #[trigger] sem_signals(seq![e], s) == signals_in(e, s),
        forall|s: usize| #[trigger] sem_takes(seq![e], s) == takes_in(e, s),
{
    let es = seq![e];
    assert(es.drop_last() =~= Seq::<Event>::empty());
    assert(es.last() == e);
    assert forall|m: usize, o: Option<usize>| #[trigger] mutex_replay(es, m, o) == mutex_after(e, m, o) by {
        assert(mutex_replay(es.drop_last(), m, o) == Some(o));
    }
    assert forall|q: usize| #[trigger] queue_sent(es, q) == sent_by(e, q) by {
        assert(queue_sent(es.drop_last(), q) == Seq::<u32>::empty());
        assert(Seq::<u32>::empty() + sent_by(e, q) =~= sent_by(e, q));
    }
    assert forall|q: usize| #[trigger] queue_received(es, q) == received_by(e, q) by {
        assert(queue_received(es.drop_last(), q) == Seq::<u32>::empty());
        assert(Seq::<u32>::empty() + received_by(e, q) =~= received_by(e, q));
    }
    assert forall|s: usize| #[trigger] sem_signals(es, s) == signals_in(e, s) by {
        assert(sem_signals(es.drop_last(), s) == 0);
    }
    assert forall|s: usize| #[trigger] sem_takes(es, s) == takes_in(e, s) by {
        assert(sem_takes(es.drop_last(), s) == 0);
    }
}

/// An event that concerns no mutex, queue or semaphore state.
pub open spec fn is_quiet(e: Event) -> bool {
    match e {
        Event::Lock { .. } => false,
        Event::Unlock { .. } => false,
        Event::QueueSend { .. } => false,
        Event::QueueRecv { .. } => false,
        Event::SemSignal { .. } => false,
        Event::SemWait { .. } => false,
        _ => true,
    }
}

pub open spec fn all_quiet(es: Seq<Event>) -> bool {
    forall|i: int| 0 <= i < es.len() ==> is_quiet(#[trigger] es[i])
}

/// Quiet events leave every replay where it was.
pub proof fn lemma_quiet(es: Seq<Event>)
    requires
        all_quiet(es),
    ensures
        forall|m: usize, o: Option<usize>| #[trigger] mutex_replay(es, m, o) == Some(o),
        forall|q: usize| #[trigger] queue_sent(es, q) == Seq::<u32>::empty(),
        forall|q: usize| #[trigger] queue_received(es, q) == Seq::<u32>::empty(),
        forall|s: usize| #[trigger] sem_signals(es, s) == 0,
        forall|s: usize| #[trigger] sem_takes(es, s) == 0,
    decreases es.len(),
{
    if es.len() > 0 {
        let e = es.last();
        assert(is_quiet(es[es.len() - 1]));
        assert(is_quiet(e));
        assert(all_quiet(es.drop_last())) by {
            assert forall|i: int| 0 <= i < es.drop_last().len() implies is_quiet(#[trigger] es.drop_last()[i]) by {
                assert(es.drop_last()[i] == es[i]);
            }
        }
        lemma_quiet(es.drop_last());
        assert forall|m: usize, o: Option<usize>| #[trigger] mutex_replay(es, m, o) == Some(o) by {
            assert(mutex_replay(es.drop_last(), m, o) == Some(o));
        }
        assert forall|q: usize| #[trigger] queue_sent(es, q) == Seq::<u32>::empty() by {
            assert(queue_sent(es.drop_last(), q) == Seq::<u32>::empty());
            assert(Seq::<u32>::empty() + sent_by(e, q) =~= Seq::<u32>::empty());
        }
        assert forall|q: usize| #[trigger] queue_received(es, q) == Seq::<u32>::empty() by {
            assert(queue_received(es.drop_last(), q) == Seq::<u32>::empty());
            assert(Seq::<u32>::empty() + received_by(e, q) =~= Seq::<u32>::empty());
        }
        assert forall|s: usize| #[trigger] sem_signals(es, s) == 0 by {
            assert(sem_signals(es.drop_last(), s) == 0);
        }
        assert forall|s: usize| #[trigger] sem_takes(es, s) == 0 by {
            assert(sem_takes(es.drop_last(), s) == 0);
        }
    }
}

/// Replaying a concatenation replays its parts in turn.
pub proof fn lemma_concat(a: Seq<Event>, b: Seq<Event>)
    ensures
        forall|m: usize, o: Option<usize>|
            #[trigger] mutex_replay(a + b, m, o) == match mutex_replay(a, m, o) {
                None => None,
                Some(o1) => mutex_replay(b, m, o1),
            },
        forall|q: usize| #[trigger] queue_sent(a + b, q) == queue_sent(a, q) + queue_sent(b, q),
        forall|q: usize| #[trigger] queue_received(a + b, q) == queue_received(a, q) + queue_received(b, q),
        forall|s: usize| #[trigger] sem_signals(a + b, s) == sem_signals(a, s) + sem_signals(b, s),
        forall|s: usize| #[trigger] sem_takes(a + b, s) == sem_takes(a, s) + sem_takes(b, s),
    decreases b.len(),
{
    if b.len() == 0 {
        assert(a + b =~= a);
        assert forall|q: usize| #[trigger] queue_sent(a + b, q) == queue_sent(a, q) + queue_sent(b, q) by {
            assert(queue_sent(a, q) + queue_sent(b, q) =~= queue_sent(a, q));
        }
        assert forall|q: usize| #[trigger] queue_received(a + b, q) == queue_received(a, q) + queue_received(
            b,
            q,
        ) by {
            assert(queue_received(a, q) + queue_received(b, q) =~= queue_received(a, q));
        }
    } else {
        lemma_concat(a, b.drop_last());
        assert((a + b).drop_last() =~= a + b.drop_last());
        assert((a + b).last() == b.last());
        assert forall|q: usize| #[trigger] queue_sent(a + b, q) == queue_sent(a, q) + queue_sent(b, q) by {
            assert(queue_sent(a + b.drop_last(), q) == queue_sent(a, q) + queue_sent(b.drop_last(), q));
            assert(queue_sent(a, q) + queue_sent(b.drop_last(), q) + sent_by(b.last(), q) =~= queue_sent(a, q) + (
            queue_sent(b.drop_last(), q) + sent_by(b.last(), q)));
        }
        assert forall|q: usize| #[trigger] queue_received(a + b, q) == queue_received(a, q) + queue_received(b, q) by {
            assert(queue_received(a + b.drop_last(), q) == queue_received(a, q) + queue_received(b.drop_last(), q));
            assert(queue_received(a, q) + queue_received(b.drop_last(), q) + received_by(b.last(), q) =~= queue_received(
                a,
                q,
            ) + (queue_received(b.drop_last(), q) + received_by(b.last(), q)));
        }
        assert forall|m: usize, o: Option<usize>|
            #[trigger] mutex_replay(a + b, m, o) == match mutex_replay(a, m, o) {
                None => None,
                Some(o1) => mutex_replay(b, m, o1),
            } by {
            assert(mutex_replay(a + b.drop_last(), m, o) == match mutex_replay(a, m, o) {
                None => None,
                Some(o1) => mutex_replay(b.drop_last(), m, o1),
            });
        }
        assert forall|s: usize| #[trigger] sem_signals(a + b, s) == sem_signals(a, s) + sem_signals(b, s) by {
            assert(sem_signals(a + b.drop_last(), s) == sem_signals(a, s) + sem_signals(b.drop_last(), s));
        }
        assert forall|s: usize| #[trigger] sem_takes(a + b, s) == sem_takes(a, s) + sem_takes(b, s) by {
            assert(sem_takes(a + b.drop_last(), s) == sem_takes(a, s) + sem_takes(b.drop_last(), s));
        }
    }
}

/// How the synchronization objects of `k` became those of `k2`, the events `es`
/// having been appended to the log: each mutex's lock and unlock events replay from
/// its old owner to its new one without ever locking a held mutex; each queue's old
/// contents followed by the values sent equal the values received followed by its new
/// contents; and each semaphore's units are conserved: a take consumes a unit, a
/// signal provides one, and only a signal at the saturation limit loses one.
pub open spec fn ledger(k: KernelView, k2: KernelView, es: Seq<Event>) -> bool {
    &&& k2.log == k.log + es
    &&& k2.mutexes.len() == k.mutexes.len()
    &&& k2.queues.len() == k.queues.len()
    &&& k2.semaphores.len() == k.semaphores.len()
    &&& forall|m: int|
        0 <= m < k.mutexes.len() ==> #[trigger] mutex_replay(es, m as usize, k.mutexes[m].owner) == Some(
            k2.mutexes[m].owner,
        )
    &&& forall|q: int|
        0 <= q < k.queues.len() ==> k.queues[q].buf + #[trigger] queue_sent(es, q as usize) == queue_received(
            es,
            q as usize,
        ) + k2.queues[q].buf
    &&& forall|s: int| 0 <= s < k.semaphores.len() ==> #[trigger] k2.semaphores[s].max == k.semaphores[s].max
    &&& forall|s: int|
        0 <= s < k.semaphores.len() ==> sem_balanced(
            k.semaphores[s].count as int,
            k2.semaphores[s].count as int,
            k.semaphores[s].max as int,
            sem_takes(es, s as usize) as int,
            #[trigger] sem_signals(es, s as usize) as int,
        )
}

/// A semaphore that held `before` units and holds `after` once `takes` units were
/// taken and `signals` signals given: no unit appears from nowhere, and none is lost
/// unless a signal met the saturation limit `max`.
pub open spec fn sem_balanced(before: int, after: int, max: int, takes: int, signals: int) -> bool {
    &&& after + takes <= before + signals
    &&& (before + signals <= max ==> after + takes == before + signals)
}

/// Ledgers compose.
pub proof fn lemma_ledger_trans(k1: KernelView, k2: KernelView, k3: KernelView, a: Seq<Event>, b: Seq<Event>)
    requires
        ledger(k1, k2, a),
        ledger(k2, k3, b),
    ensures
        ledger(k1, k3, a + b),
{
    lemma_concat(a, b);
    assert(k3.log == k1.log + (a + b)) by {
        assert(k1.log + a + b =~= k1.log + (a + b));
    }
    assert forall|m: int| 0 <= m < k1.mutexes.len() implies #[trigger] mutex_replay(a + b, m as usize, k1.mutexes[m].owner)
        == Some(k3.mutexes[m].owner) by {
        assert(mutex_replay(a, m as usize, k1.mutexes[m].owner) == Some(k2.mutexes[m].owner));
        assert(mutex_replay(b, m as usize, k2.mutexes[m].owner) == Some(k3.mutexes[m].owner));
    }
    assert forall|q: int| 0 <= q < k1.queues.len() implies k1.queues[q].buf + #[trigger] queue_sent(a + b, q as usize)
        == queue_received(a + b, q as usize) + k3.queues[q].buf by {
        let qq = q as usize;
        assert(k1.queues[q].buf + queue_sent(a, qq) == queue_received(a, qq) + k2.queues[q].buf);
        assert(k2.queues[q].buf + queue_sent(b, qq) == queue_received(b, qq) + k3.queues[q].buf);
        assert(k1.queues[q].buf + (queue_sent(a, qq) + queue_sent(b, qq)) =~= (k1.queues[q].buf + queue_sent(
            a,
            qq,
        )) + queue_sent(b, qq));
        assert(queue_received(a, qq) + queue_received(b, qq) + k3.queues[q].buf =~= queue_received(a, qq) + (
        queue_received(b, qq) + k3.queues[q].buf));
        assert((queue_received(a, qq) + k2.queues[q].buf) + queue_sent(b, qq) =~= queue_received(a, qq) + (
        k2.queues[q].buf + queue_sent(b, qq)));
    }
    assert forall|s: int| 0 <= s < k1.semaphores.len() implies sem_balanced(
        k1.semaphores[s].count as int,
        k3.semaphores[s].count as int,
        k1.semaphores[s].max as int,
        sem_takes(a + b, s as usize) as int,
        #[trigger] sem_signals(a + b, s as usize) as int,
    ) by {
        let ss = s as usize;
        assert(sem_balanced(k1.semaphores[s].count as int, k2.semaphores[s].count as int, k1.semaphores[s].max as int,
            sem_takes(a, ss) as int, sem_signals(a, ss) as int));
        assert(sem_balanced(k2.semaphores[s].count as int, k3.semaphores[s].count as int, k2.semaphores[s].max as int,
            sem_takes(b, ss) as int, sem_signals(b, ss) as int));
        assert(k2.semaphores[s].max == k1.semaphores[s].max);
        assert(sem_takes(a + b, ss) == sem_takes(a, ss) + sem_takes(b, ss));
        assert(sem_signals(a + b, ss) == sem_signals(a, ss) + sem_signals(b, ss));
    }
    assert forall|s: int| 0 <= s < k1.semaphores.len() implies #[trigger] k3.semaphores[s].max == k1.semaphores[s].max by {
        assert(k2.semaphores[s].max == k1.semaphores[s].max);
        assert(k3.semaphores[s].max == k2.semaphores[s].max);
    }
}

} // verus!
