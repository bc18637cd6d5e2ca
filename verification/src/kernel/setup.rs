//! Building a kernel in any order: while tasks, mutexes, semaphores and queues are
//! being added, a program may name an object not yet added; once every object its
//! programs name exists, the kernel is well formed.
use vstd::prelude::*;
use crate::kernel::{BlockReason, KernelView, MutexView, QueueView, SemaphoreView, TaskView};
use crate::kernel::model::is_ready;
use crate::kernel::wellformed::op_valid;

verus! {

/// `t` would be a well-formed task at position `i`, but for what its program names.
pub open spec fn task_shape_ok(k: KernelView, i: int, t: TaskView) -> bool {
    &&& t.id == i
    &&& t.pc <= t.program.len()
    &&& t.program.len() <= usize::MAX
    &&& forall|j: int| 0 <= j < t.held_mutexes.len() ==> t.held_mutexes[j] < k.mutexes.len()
    &&& (t.blocked_on matches Some(BlockReason::Mutex(m)) ==> m < k.mutexes.len())
    &&& (is_ready(t) ==> t.job_active && t.blocked_on is None)
    &&& (t.blocked_on matches Some(r) && r != BlockReason::WaitPeriod ==> t.job_active)
}

/// Every operation of every program names an existing object.
pub open spec fn programs_valid(k: KernelView) -> bool {
    forall|i: int, j: int|
        0 <= i < k.tasks.len() && 0 <= j < k.tasks[i].program.len() ==> op_valid(
            #[trigger] k.tasks[i].program[j],
            k.mutexes.len(),
            k.semaphores.len(),
            k.queues.len(),
        )
}

/// A kernel being built: well formed, but for what the programs name.
pub open spec fn setup_ok(k: KernelView) -> bool {
    &&& k.mcu.wf()
    &&& k.tasks.len() <= usize::MAX
    &&& k.mutexes.len() <= usize::MAX
    &&& k.semaphores.len() <= usize::MAX
    &&& k.queues.len() <= usize::MAX
    &&& (k.running matches Some(r) ==> r < k.tasks.len())
    &&& forall|i: int| 0 <= i < k.tasks.len() ==> task_shape_ok(k, i, #[trigger] k.tasks[i])
    &&& forall|m: int| 0 <= m < k.mutexes.len() ==> k.mutex_ok(m)
    &&& forall|s: int| 0 <= s < k.semaphores.len() ==> k.sem_ok(s)
    &&& forall|q: int| 0 <= q < k.queues.len() ==> k.queue_ok(q)
}

/// A well-formed kernel is one being built.
pub proof fn lemma_wf_setup(k: KernelView)
    requires
        k.wf(),
    ensures
        setup_ok(k),
{
    assert forall|i: int| 0 <= i < k.tasks.len() implies task_shape_ok(k, i, #[trigger] k.tasks[i]) by {
        assert(k.task_ok(i));
    }
}

/// A kernel being built whose programs name only existing objects is well formed.
pub proof fn lemma_setup_done(k: KernelView)
    requires
        setup_ok(k),
        programs_valid(k),
    ensures
        k.wf(),
{
    assert forall|i: int| 0 <= i < k.tasks.len() implies k.task_ok(i) by {
        assert(task_shape_ok(k, i, k.tasks[i]));
        assert forall|j: int| 0 <= j < k.tasks[i].program.len() implies op_valid(
            k.tasks[i].program[j],
            k.mutexes.len(),
            k.semaphores.len(),
            k.queues.len(),
        ) by {
            assert(op_valid(k.tasks[i].program[j], k.mutexes.len(), k.semaphores.len(), k.queues.len()));
        }
    }
}

/// Adding a task that holds and waits on nothing keeps a kernel being built.
pub proof fn lemma_setup_task(k: KernelView, t: TaskView)
    requires
        setup_ok(k),
        k.tasks.len() < usize::MAX,
        t.pc <= t.program.len() <= usize::MAX,
        t.held_mutexes.len() == 0,
        t.blocked_on is None,
    ensures
        setup_ok(k.with_new_task(t)),
{
    let k2 = k.with_new_task(t);
    assert forall|i: int| 0 <= i < k2.tasks.len() implies task_shape_ok(k2, i, #[trigger] k2.tasks[i]) by {
        if i < k.tasks.len() {
            assert(task_shape_ok(k, i, k.tasks[i]));
        }
    }
    assert forall|mm: int| 0 <= mm < k2.mutexes.len() implies k2.mutex_ok(mm) by {
        assert(k.mutex_ok(mm));
        assert forall|j: int| 0 <= j < k2.mutexes[mm].waiters.len() implies k2.waiter_ok(
            k2.mutexes[mm].waiters[j],
            BlockReason::Mutex(mm as usize),
        ) by {
            assert(k.waiter_ok(k.mutexes[mm].waiters[j], BlockReason::Mutex(mm as usize)));
        }
    }
    assert forall|ss: int| 0 <= ss < k2.semaphores.len() implies k2.sem_ok(ss) by {
        assert(k.sem_ok(ss));
        assert forall|j: int| 0 <= j < k2.semaphores[ss].waiters.len() implies k2.waiter_ok(
            k2.semaphores[ss].waiters[j],
            BlockReason::Semaphore(ss as usize),
        ) by {
            assert(k.waiter_ok(k.semaphores[ss].waiters[j], BlockReason::Semaphore(ss as usize)));
        }
    }
    assert forall|qq: int| 0 <= qq < k2.queues.len() implies k2.queue_ok(qq) by {
        assert(k.queue_ok(qq));
    }
}

/// Adding a free mutex keeps a kernel being built.
pub proof fn lemma_setup_mutex(k: KernelView)
    requires
        setup_ok(k),
        k.mutexes.len() < usize::MAX,
    ensures
        setup_ok(KernelView { mutexes: k.mutexes.push(MutexView::fresh()), ..k }),
{
    let k2 = KernelView { mutexes: k.mutexes.push(MutexView::fresh()), ..k };
    assert forall|i: int| 0 <= i < k2.tasks.len() implies task_shape_ok(k2, i, #[trigger] k2.tasks[i]) by {
        assert(task_shape_ok(k, i, k.tasks[i]));
    }
    assert forall|mm: int| 0 <= mm < k2.mutexes.len() implies k2.mutex_ok(mm) by {
        if mm < k.mutexes.len() {
            assert(k.mutex_ok(mm));
            assert forall|j: int| 0 <= j < k2.mutexes[mm].waiters.len() implies k2.waiter_ok(
                k2.mutexes[mm].waiters[j],
                BlockReason::Mutex(mm as usize),
            ) by {
                assert(k.waiter_ok(k.mutexes[mm].waiters[j], BlockReason::Mutex(mm as usize)));
            }
        }
    }
    assert forall|ss: int| 0 <= ss < k2.semaphores.len() implies k2.sem_ok(ss) by {
        assert(k.sem_ok(ss));
    }
    assert forall|qq: int| 0 <= qq < k2.queues.len() implies k2.queue_ok(qq) by {
        assert(k.queue_ok(qq));
    }
}

/// Adding a semaphore with nobody waiting keeps a kernel being built.
pub proof fn lemma_setup_semaphore(k: KernelView, v: SemaphoreView)
    requires
        setup_ok(k),
        k.semaphores.len() < usize::MAX,
        v.waiters.len() == 0,
    ensures
        setup_ok(KernelView { semaphores: k.semaphores.push(v), ..k }),
{
    let k2 = KernelView { semaphores: k.semaphores.push(v), ..k };
    assert forall|i: int| 0 <= i < k2.tasks.len() implies task_shape_ok(k2, i, #[trigger] k2.tasks[i]) by {
        assert(task_shape_ok(k, i, k.tasks[i]));
    }
    assert forall|mm: int| 0 <= mm < k2.mutexes.len() implies k2.mutex_ok(mm) by {
        assert(k.mutex_ok(mm));
    }
    assert forall|ss: int| 0 <= ss < k2.semaphores.len() implies k2.sem_ok(ss) by {
        if ss < k.semaphores.len() {
            assert(k.sem_ok(ss));
            assert forall|j: int| 0 <= j < k2.semaphores[ss].waiters.len() implies k2.waiter_ok(
                k2.semaphores[ss].waiters[j],
                BlockReason::Semaphore(ss as usize),
            ) by {
                assert(k.waiter_ok(k.semaphores[ss].waiters[j], BlockReason::Semaphore(ss as usize)));
            }
        }
    }
    assert forall|qq: int| 0 <= qq < k2.queues.len() implies k2.queue_ok(qq) by {
        assert(k.queue_ok(qq));
    }
}

/// Adding a queue with nobody waiting keeps a kernel being built.
pub proof fn lemma_setup_queue(k: KernelView, v: QueueView)
    requires
        setup_ok(k),
        k.queues.len() < usize::MAX,
        v.recv_waiters.len() == 0,
        v.send_waiters.len() == 0,
    ensures
        setup_ok(KernelView { queues: k.queues.push(v), ..k }),
{
    let k2 = KernelView { queues: k.queues.push(v), ..k };
    assert forall|i: int| 0 <= i < k2.tasks.len() implies task_shape_ok(k2, i, #[trigger] k2.tasks[i]) by {
        assert(task_shape_ok(k, i, k.tasks[i]));
    }
    assert forall|mm: int| 0 <= mm < k2.mutexes.len() implies k2.mutex_ok(mm) by {
        assert(k.mutex_ok(mm));
    }
    assert forall|ss: int| 0 <= ss < k2.semaphores.len() implies k2.sem_ok(ss) by {
        assert(k.sem_ok(ss));
    }
    assert forall|qq: int| 0 <= qq < k2.queues.len() implies k2.queue_ok(qq) by {
        if qq < k.queues.len() {
            assert(k.queue_ok(qq));
        }
    }
}

} // verus!
