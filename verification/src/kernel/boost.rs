//! With priority inheritance on, every mutex holder runs at least at the effective
//! priority of every task waiting on its mutex, at every tick: a task that blocks
//! on a held mutex hands its priority down the chain of holders at once, and a
//! holder that releases a mutex keeps what its remaining waiters entitle it to.
use vstd::prelude::*;
use crate::kernel::{BlockReason, Event, KernelView, Op, TaskState, TaskView};
use crate::kernel::model::{count_below, waiters_max};


verus! {

/// Every holder runs at least at the effective priority of every waiter of its
/// mutex.
pub open spec fn holders_cover(k: KernelView) -> bool {
    forall|m: int, j: int|
        0 <= m < k.mutexes.len() && k.mutexes[m].owner is Some && 0 <= j < k.mutexes[m].waiters.len()
            ==> k.tasks[k.mutexes[m].owner->Some_0 as int].eff_priority >= k.tasks[#[trigger] k.mutexes[m].waiters[j] as int].eff_priority
}

/// Every holder covers the waiters of its mutex, except possibly for the edges on
/// which `x` waits.
pub open spec fn holders_cover_except(k: KernelView, x: usize) -> bool {
    forall|m: int, j: int|
        0 <= m < k.mutexes.len() && k.mutexes[m].owner is Some && 0 <= j < k.mutexes[m].waiters.len()
            && k.mutexes[m].waiters[j] != x ==> k.tasks[k.mutexes[m].owner->Some_0 as int].eff_priority
            >= k.tasks[#[trigger] k.mutexes[m].waiters[j] as int].eff_priority
}

/// A free mutex has nobody waiting.
pub open spec fn free_unwaited(k: KernelView) -> bool {
    forall|m: int| 0 <= m < k.mutexes.len() && (#[trigger] k.mutexes[m]).owner is None ==> k.mutexes[m].waiters.len() == 0
}

/// Every held mutex is in its holder's list of held mutexes.
pub open spec fn owners_listed(k: KernelView) -> bool {
    forall|m: int|
        0 <= m < k.mutexes.len() && (#[trigger] k.mutexes[m]).owner is Some ==> k.tasks[k.mutexes[m].owner->Some_0 as int].held_mutexes.contains(
            m as usize,
        )
}

/// The state priority inheritance keeps: a well-formed kernel with inheritance on,
/// whose holders cover their waiters, whose free mutexes have nobody waiting, and
/// whose holders list what they hold.
pub open spec fn inheritance_state(k: KernelView) -> bool {
    &&& k.wf()
    &&& k.config.priority_inheritance
    &&& holders_cover(k)
    &&& free_unwaited(k)
    &&& owners_listed(k)
}

/// `k2` has the mutexes, configuration, and every task's priorities (effective and
/// base) and held list of `k`.
pub open spec fn same_priorities(k: KernelView, k2: KernelView) -> bool {
    &&& k2.mutexes == k.mutexes
    &&& k2.config == k.config
    &&& k2.tasks.len() == k.tasks.len()
    &&& forall|i: int|
        0 <= i < k.tasks.len() ==> (#[trigger] k2.tasks[i]).eff_priority == k.tasks[i].eff_priority
            && k2.tasks[i].held_mutexes == k.tasks[i].held_mutexes
            && k2.tasks[i].base_priority == k.tasks[i].base_priority
}

/// A transition that keeps the mutexes and every task's priorities and held list
/// keeps the inheritance state, given it keeps the kernel well formed.
pub proof fn lemma_frame(k: KernelView, k2: KernelView)
    requires
        inheritance_state(k),
        same_priorities(k, k2),
        k2.wf(),
    ensures
        inheritance_state(k2),
{
    assert forall|m: int, j: int|
        0 <= m < k2.mutexes.len() && k2.mutexes[m].owner is Some && 0 <= j < k2.mutexes[m].waiters.len()
            implies k2.tasks[k2.mutexes[m].owner->Some_0 as int].eff_priority >= k2.tasks[#[trigger] k2.mutexes[m].waiters[j] as int].eff_priority by {
        assert(k.mutex_ok(m));
        assert(k.waiter_ok(k.mutexes[m].waiters[j], BlockReason::Mutex(m as usize)));
        let o = k.mutexes[m].owner->Some_0;
        assert(k2.tasks[o as int].eff_priority == k.tasks[o as int].eff_priority);
        assert(k2.tasks[k.mutexes[m].waiters[j] as int].eff_priority == k.tasks[k.mutexes[m].waiters[j] as int].eff_priority);
    }
    assert forall|m: int| 0 <= m < k2.mutexes.len() && (#[trigger] k2.mutexes[m]).owner is Some implies k2.tasks[k2.mutexes[m].owner->Some_0 as int].held_mutexes.contains(
        m as usize,
    ) by {
        assert(k.mutex_ok(m));
        let o = k.mutexes[m].owner->Some_0;
        assert(k2.tasks[o as int].held_mutexes == k.tasks[o as int].held_mutexes);
    }
}

/// The highest priority among waiters is at least each of them and the start.
proof fn lemma_waiters_max(effs: Seq<u8>, ws: Seq<usize>, n: int, p: u8)
    ensures
        waiters_max(effs, ws, n, p) >= p,
        forall|j: int| 0 <= j < n ==> waiters_max(effs, ws, n, p) >= effs[#[trigger] ws[j] as int],
    decreases n,
{
    if n > 0 {
        lemma_waiters_max(effs, ws, n - 1, p);
    }
}

/// What a holder is entitled to covers every waiter of every mutex it lists.
pub(crate) proof fn lemma_held_max(k: KernelView, ms: Seq<usize>, n: int, p: u8)
    ensures
        k.held_max(ms, n, p) >= p,
        forall|i: int, j: int|
            0 <= i < n && 0 <= j < k.mutexes[ms[i] as int].waiters.len() ==> k.held_max(ms, n, p)
                >= k.eff_table()[#[trigger] k.mutexes[ms[i] as int].waiters[j] as int],
    decreases n,
{
    if n > 0 {
        lemma_held_max(k, ms, n - 1, p);
        let q = k.held_max(ms, n - 1, p);
        let ws = k.mutexes[ms[n - 1] as int].waiters;
        lemma_waiters_max(k.eff_table(), ws, ws.len() as int, q);
    }
}

/// A waiter of mutex `m` is blocked on `m` and no other.
proof fn lemma_waiter_blocked(k: KernelView, m: int, j: int)
    requires
        k.wf(),
        0 <= m < k.mutexes.len(),
        0 <= j < k.mutexes[m].waiters.len(),
    ensures
        k.mutexes[m].waiters[j] < k.tasks.len(),
        k.tasks[k.mutexes[m].waiters[j] as int].blocked_on == Some(BlockReason::Mutex(m as usize)),
        k.mutexes[m].owner matches Some(o) ==> o < k.tasks.len(),
{
    assert(k.mutex_ok(m));
    assert(k.waiter_ok(k.mutexes[m].waiters[j], BlockReason::Mutex(m as usize)));
}

/// The inheritance walk started at `x`, when only the edges on which `x` waits may
/// be uncovered, leaves every edge covered.
pub proof fn lemma_inherited_covers(k: KernelView, x: usize)
    requires
        k.wf(),
        holders_cover_except(k, x),
        free_unwaited(k),
        owners_listed(k),
    ensures
        holders_cover(k.inherited(x)),
        free_unwaited(k.inherited(x)),
        owners_listed(k.inherited(x)),
        k.inherited(x).wf(),
        k.inherited(x).mutexes == k.mutexes,
        k.inherited(x).config == k.config,
        k.inherited(x).tasks.len() == k.tasks.len(),
        forall|i: int|
            0 <= i < k.tasks.len() ==> (#[trigger] k.inherited(x).tasks[i]).held_mutexes == k.tasks[i].held_mutexes
                && k.inherited(x).tasks[i].state == k.tasks[i].state,
    decreases count_below(k.tasks, k.tasks[x as int].eff_priority),
{
    k.lemma_inherited_wf(x);
    let r = k.inherited(x);
    let boosts = x < k.tasks.len() && match k.tasks[x as int].blocked_on {
        Some(BlockReason::Mutex(mid)) => mid < k.mutexes.len() && match k.mutexes[mid as int].owner {
            Some(o) => o < k.tasks.len() && k.tasks[x as int].eff_priority > k.tasks[o as int].eff_priority,
            None => false,
        },
        _ => false,
    };
    if boosts {
        let mid = k.tasks[x as int].blocked_on->Some_0->Mutex_0;
        let o = k.mutexes[mid as int].owner->Some_0;
        let want = k.tasks[x as int].eff_priority;
        let e = Event::Inherit { holder: o, boosted_to: want, waiter: x };
        let k1 = k.set_task(o, k.tasks[o as int].with_eff(want)).logged(e);
        assert(r == k1.inherited(o));
        k.lemma_wf_eff_log(o, want, e);
        assert forall|m: int, j: int|
            0 <= m < k1.mutexes.len() && k1.mutexes[m].owner is Some && 0 <= j < k1.mutexes[m].waiters.len()
                && k1.mutexes[m].waiters[j] != o implies k1.tasks[k1.mutexes[m].owner->Some_0 as int].eff_priority
                >= k1.tasks[#[trigger] k1.mutexes[m].waiters[j] as int].eff_priority by {
            lemma_waiter_blocked(k, m, j);
            let w = k.mutexes[m].waiters[j];
            let h = k.mutexes[m].owner->Some_0;
            if w == x {
                assert(m == mid);
            } else {
                assert(k.tasks[h as int].eff_priority >= k.tasks[w as int].eff_priority);
            }
        }
        assert forall|m: int| 0 <= m < k1.mutexes.len() && (#[trigger] k1.mutexes[m]).owner is Some implies k1.tasks[k1.mutexes[m].owner->Some_0 as int].held_mutexes.contains(
            m as usize,
        ) by {
            assert(k.mutex_ok(m));
        }
        assert(free_unwaited(k1));
        crate::kernel::model::lemma_count_below_raise(k.tasks, o as int, k.tasks[o as int].with_eff(want), want);
        lemma_inherited_covers(k1, o);
    } else {
        assert(r == k);
        assert forall|m: int, j: int|
            0 <= m < k.mutexes.len() && k.mutexes[m].owner is Some && 0 <= j < k.mutexes[m].waiters.len()
                implies k.tasks[k.mutexes[m].owner->Some_0 as int].eff_priority >= k.tasks[#[trigger] k.mutexes[m].waiters[j] as int].eff_priority by {
            lemma_waiter_blocked(k, m, j);
            let w = k.mutexes[m].waiters[j];
            if w == x {
                assert(k.tasks[x as int].blocked_on == Some(BlockReason::Mutex(m as usize)));
            }
        }
    }
}

/// Every edge is covered but possibly those held by `h`.
pub open spec fn cover_but_holder(k: KernelView, h: usize) -> bool {
    forall|m: int, j: int|
        0 <= m < k.mutexes.len() && k.mutexes[m].owner is Some && k.mutexes[m].owner != Some(h) && 0 <= j
            < k.mutexes[m].waiters.len() ==> k.tasks[k.mutexes[m].owner->Some_0 as int].eff_priority
            >= k.tasks[#[trigger] k.mutexes[m].waiters[j] as int].eff_priority
}

/// `h` lists every mutex it holds.
pub open spec fn listed_for(k: KernelView, h: usize) -> bool {
    forall|m: int|
        0 <= m < k.mutexes.len() && (#[trigger] k.mutexes[m]).owner == Some(h) ==> k.tasks[h as int].held_mutexes.contains(
            m as usize,
        )
}

/// `x` waits on no mutex.
pub open spec fn waits_nowhere(k: KernelView, x: usize) -> bool {
    forall|m: int, j: int| 0 <= m < k.mutexes.len() && 0 <= j < k.mutexes[m].waiters.len() ==> #[trigger] k.mutexes[m].waiters[j] != x
}

/// Recomputing a holder that waits nowhere and lists what it holds covers the
/// edges it holds, and leaves the others as they were.
proof fn lemma_recomputed_covers(k: KernelView, h: usize)
    requires
        h < k.tasks.len(),
        k.wf(),
        cover_but_holder(k, h),
        listed_for(k, h),
        waits_nowhere(k, h),
    ensures
        holders_cover(k.recomputed(h)),
        k.recomputed(h).mutexes == k.mutexes,
        k.recomputed(h).config == k.config,
        k.recomputed(h).tasks.len() == k.tasks.len(),
        forall|i: int|
            0 <= i < k.tasks.len() ==> (#[trigger] k.recomputed(h).tasks[i]).held_mutexes == k.tasks[i].held_mutexes
                && k.recomputed(h).tasks[i].state == k.tasks[i].state && (i != h ==> k.recomputed(h).tasks[i].eff_priority
                == k.tasks[i].eff_priority),
{
    let t = k.tasks[h as int];
    let r = k.recomputed(h);
    lemma_held_max(k, t.held_mutexes, t.held_mutexes.len() as int, t.base_priority);
    assert forall|m: int, j: int|
        0 <= m < r.mutexes.len() && r.mutexes[m].owner is Some && 0 <= j < r.mutexes[m].waiters.len() implies r.tasks[r.mutexes[m].owner->Some_0 as int].eff_priority
        >= r.tasks[#[trigger] r.mutexes[m].waiters[j] as int].eff_priority by {
        let w = k.mutexes[m].waiters[j];
        assert(w != h);
        lemma_waiter_blocked(k, m, j);
        if k.mutexes[m].owner == Some(h) {
            assert(t.held_mutexes.contains(m as usize));
            let i = choose|i: int| 0 <= i < t.held_mutexes.len() && t.held_mutexes[i] == m as usize;
            assert(k.mutexes[t.held_mutexes[i] as int].waiters[j] == w);
            assert(k.entitled(h) >= k.eff_table()[w as int]);
        }
    }
}

/// Without `x`, a list keeps every other entry.
proof fn lemma_without_keeps(s: Seq<usize>, x: usize, y: usize)
    requires
        s.contains(y),
        y != x,
    ensures
        crate::kernel::model::without_value(s, x).contains(y),
{
    let i = choose|i: int| 0 <= i < s.len() && s[i] == y;
    assert(crate::kernel::model::differs_from(x)(s[i]));
    s.lemma_filter_contains(crate::kernel::model::differs_from(x), i);
}

/// A running task waits on no mutex.
proof fn lemma_running_waits_nowhere(k: KernelView, x: usize)
    requires
        k.wf(),
        x < k.tasks.len(),
        k.tasks[x as int].state != TaskState::Blocked,
    ensures
        waits_nowhere(k, x),
{
    assert forall|m: int, j: int| 0 <= m < k.mutexes.len() && 0 <= j < k.mutexes[m].waiters.len() implies #[trigger] k.mutexes[m].waiters[j]
        != x by {
        assert(k.mutex_ok(m));
        assert(k.waiter_ok(k.mutexes[m].waiters[j], BlockReason::Mutex(m as usize)));
    }
}

/// Taking a free mutex, or blocking on a held one and handing the priority down
/// the chain, keeps the inheritance state.
proof fn lemma_lock_keeps(k: KernelView, tid: usize, m: usize)
    requires
        inheritance_state(k),
        tid < k.tasks.len(),
        m < k.mutexes.len(),
        k.tasks[tid as int].state == TaskState::Running,
        k.tasks[tid as int].current_op() == Some(Op::Lock(m)),
    ensures
        inheritance_state(k.op_lock(tid, m).0),
{
    let t = k.tasks[tid as int];
    let mx = k.mutexes[m as int];
    k.lemma_op_step(tid);
    let k2 = k.op_lock(tid, m).0;
    match mx.owner {
        None => {
            assert(mx.waiters.len() == 0);
            assert forall|mm: int, j: int|
                0 <= mm < k2.mutexes.len() && k2.mutexes[mm].owner is Some && 0 <= j < k2.mutexes[mm].waiters.len()
                    implies k2.tasks[k2.mutexes[mm].owner->Some_0 as int].eff_priority >= k2.tasks[#[trigger] k2.mutexes[mm].waiters[j] as int].eff_priority by {
                lemma_waiter_blocked(k, mm, j);
            }
            assert forall|mm: int| 0 <= mm < k2.mutexes.len() && (#[trigger] k2.mutexes[mm]).owner is Some implies k2.tasks[k2.mutexes[mm].owner->Some_0 as int].held_mutexes.contains(
                mm as usize,
            ) by {
                if mm != m {
                    assert(k.mutex_ok(mm));
                    let h = k.mutexes[mm].owner->Some_0;
                    if h == tid {
                        assert(k.tasks[tid as int].held_mutexes.contains(mm as usize));
                        let i = choose|i: int| 0 <= i < t.held_mutexes.len() && t.held_mutexes[i] == mm as usize;
                        assert(k2.tasks[tid as int].held_mutexes[i] == mm as usize);
                    }
                } else {
                    assert(k2.tasks[tid as int].held_mutexes.last() == m);
                }
            }
        },
        Some(owner) => {
            let e = Event::BlockOnMutex { task: tid, mutex: m, owner };
            let k1 = k.set_mutex(m, mx.with_waiter(tid)).set_task(tid, t.parked(BlockReason::Mutex(m))).idle_cpu().logged(e);
            k.lemma_lock_blocked_wf(tid, m);
            lemma_running_waits_nowhere(k, tid);
            assert forall|mm: int, j: int|
                0 <= mm < k1.mutexes.len() && k1.mutexes[mm].owner is Some && 0 <= j < k1.mutexes[mm].waiters.len()
                    && k1.mutexes[mm].waiters[j] != tid implies k1.tasks[k1.mutexes[mm].owner->Some_0 as int].eff_priority
                    >= k1.tasks[#[trigger] k1.mutexes[mm].waiters[j] as int].eff_priority by {
                if mm == m && j == mx.waiters.len() {
                } else {
                    lemma_waiter_blocked(k, mm, j);
                    assert(k1.mutexes[mm].waiters[j] == k.mutexes[mm].waiters[j]);
                }
            }
            assert forall|mm: int| 0 <= mm < k1.mutexes.len() && (#[trigger] k1.mutexes[mm]).owner is Some implies k1.tasks[k1.mutexes[mm].owner->Some_0 as int].held_mutexes.contains(
                mm as usize,
            ) by {
                assert(k.mutex_ok(mm));
            }
            assert forall|mm: int| 0 <= mm < k1.mutexes.len() && (#[trigger] k1.mutexes[mm]).owner is None implies k1.mutexes[mm].waiters.len()
                == 0 by {
            }
            lemma_inherited_covers(k1, tid);
        },
    }
}

/// Releasing a mutex keeps the inheritance state: the releaser falls back to what
/// its remaining waiters entitle it to, and the waiter it hands the mutex to runs
/// at least at the priority of those still waiting.
proof fn lemma_unlock_keeps(k: KernelView, tid: usize, m: usize)
    requires
        inheritance_state(k),
        tid < k.tasks.len(),
        m < k.mutexes.len(),
        k.tasks[tid as int].state == TaskState::Running,
        k.tasks[tid as int].current_op() == Some(Op::Unlock(m)),
    ensures
        inheritance_state(k.op_unlock(tid, m)),
{
    let t = k.tasks[tid as int];
    let mx = k.mutexes[m as int];
    let prios = crate::kernel::select::ranks_of(mx.waiters, k.eff_table());
    let (mv, next) = mx.released(tid, prios);
    let e1 = Event::Unlock { task: tid, mutex: m };
    let k1 = k.set_mutex(m, mv).set_task(
        tid,
        TaskView { held_mutexes: crate::kernel::model::without_value(t.held_mutexes, m), ..t }.advanced(),
    ).logged(e1);
    let k2 = k1.recomputed(tid);
    k.lemma_unlock_wf(tid, m);
    k.lemma_unlock_op(tid, m);
    lemma_running_waits_nowhere(k, tid);
    assert(k1.tasks[tid as int].state == TaskState::Running);
    lemma_running_waits_nowhere(k1, tid);
    // tid keeps listing every mutex it still holds
    assert forall|mm: int| 0 <= mm < k1.mutexes.len() && (#[trigger] k1.mutexes[mm]).owner == Some(tid) implies k1.tasks[tid as int].held_mutexes.contains(
        mm as usize,
    ) by {
        assert(mm != m);
        assert(k.mutexes[mm].owner == Some(tid));
        lemma_without_keeps(t.held_mutexes, m, mm as usize);
    }
    match next {
        None => {
            assert forall|mm: int, j: int|
                0 <= mm < k1.mutexes.len() && k1.mutexes[mm].owner is Some && k1.mutexes[mm].owner != Some(tid) && 0 <= j
                    < k1.mutexes[mm].waiters.len() implies k1.tasks[k1.mutexes[mm].owner->Some_0 as int].eff_priority
                    >= k1.tasks[#[trigger] k1.mutexes[mm].waiters[j] as int].eff_priority by {
                lemma_waiter_blocked(k, mm, j);
            }
            lemma_recomputed_covers(k1, tid);
            assert forall|mm: int| 0 <= mm < k2.mutexes.len() && (#[trigger] k2.mutexes[mm]).owner is Some implies k2.tasks[k2.mutexes[mm].owner->Some_0 as int].held_mutexes.contains(
                mm as usize,
            ) by {
                assert(k.mutex_ok(mm));
                let h = k1.mutexes[mm].owner->Some_0;
                if h != tid {
                    assert(k.mutexes[mm].owner == Some(h));
                }
            }
            assert forall|mm: int| 0 <= mm < k2.mutexes.len() && (#[trigger] k2.mutexes[mm]).owner is None implies k2.mutexes[mm].waiters.len()
                == 0 by {
            }
        },
        Some(n) => {
            crate::kernel::select::lemma_choice_exists(mx.waiters, prios);
            let b = crate::kernel::select::choice(mx.waiters, prios);
            assert(n == mx.waiters[b]);
            // the waiter handed the mutex outranks every other waiter
            assert forall|mm: int, j: int|
                0 <= mm < k1.mutexes.len() && k1.mutexes[mm].owner is Some && k1.mutexes[mm].owner != Some(tid) && 0 <= j
                    < k1.mutexes[mm].waiters.len() implies k1.tasks[k1.mutexes[mm].owner->Some_0 as int].eff_priority
                    >= k1.tasks[#[trigger] k1.mutexes[mm].waiters[j] as int].eff_priority by {
                if mm == m {
                    let jj = if j < b { j } else { j + 1 };
                    assert(k1.mutexes[mm].waiters[j] == mx.waiters[jj]);
                    lemma_waiter_blocked(k, m as int, jj);
                    lemma_waiter_blocked(k, m as int, b);
                    assert(prios[jj] == k.tasks[mx.waiters[jj] as int].eff_priority);
                } else {
                    lemma_waiter_blocked(k, mm, j);
                }
            }
            lemma_recomputed_covers(k1, tid);
            k1.lemma_recomputed_wf(tid);
            let tn = k2.tasks[n as int];
            let e2 = Event::Lock { task: n, mutex: m };
            let k3 = k2.set_task(
                n,
                TaskView { held_mutexes: tn.held_mutexes.push(m), ..tn }.woken_up().advanced(),
            ).logged(e2);
            assert(k.op_unlock(tid, m) == k3.recomputed(n));
            assert(k2.not_waiting(n));
            k2.lemma_handoff_wf(n, m);
            // n waits nowhere once woken
            assert forall|mm: int, j: int| 0 <= mm < k3.mutexes.len() && 0 <= j < k3.mutexes[mm].waiters.len() implies #[trigger] k3.mutexes[mm].waiters[j]
                != n by {
                assert(k2.not_waiting(n));
            }
            assert forall|mm: int, j: int|
                0 <= mm < k3.mutexes.len() && k3.mutexes[mm].owner is Some && k3.mutexes[mm].owner != Some(n) && 0 <= j
                    < k3.mutexes[mm].waiters.len() implies k3.tasks[k3.mutexes[mm].owner->Some_0 as int].eff_priority
                    >= k3.tasks[#[trigger] k3.mutexes[mm].waiters[j] as int].eff_priority by {
                lemma_waiter_blocked(k2, mm, j);
                assert(k2.tasks[k2.mutexes[mm].owner->Some_0 as int].eff_priority >= k2.tasks[k2.mutexes[mm].waiters[j] as int].eff_priority);
            }
            assert forall|mm: int| 0 <= mm < k3.mutexes.len() && (#[trigger] k3.mutexes[mm]).owner == Some(n) implies k3.tasks[n as int].held_mutexes.contains(
                mm as usize,
            ) by {
                if mm == m {
                    assert(k3.tasks[n as int].held_mutexes.last() == m);
                } else {
                    assert(k.mutexes[mm].owner == Some(n));
                    assert(k.tasks[n as int].held_mutexes.contains(mm as usize));
                    let i = choose|i: int| 0 <= i < k.tasks[n as int].held_mutexes.len() && k.tasks[n as int].held_mutexes[i] == mm as usize;
                    assert(k3.tasks[n as int].held_mutexes[i] == mm as usize);
                }
            }
            lemma_recomputed_covers(k3, n);
            let k4 = k3.recomputed(n);
            assert forall|mm: int| 0 <= mm < k4.mutexes.len() && (#[trigger] k4.mutexes[mm]).owner is Some implies k4.tasks[k4.mutexes[mm].owner->Some_0 as int].held_mutexes.contains(
                mm as usize,
            ) by {
                let h = k4.mutexes[mm].owner->Some_0;
                if h == n {
                } else if h == tid {
                } else {
                    assert(k.mutex_ok(mm));
                    assert(k.mutexes[mm].owner == Some(h));
                }
            }
            assert forall|mm: int| 0 <= mm < k4.mutexes.len() && (#[trigger] k4.mutexes[mm]).owner is None implies k4.mutexes[mm].waiters.len()
                == 0 by {
            }
        },
    }
}

/// One iteration of a quantum keeps the inheritance state.
pub(crate) proof fn lemma_op_step_keeps(k: KernelView, tid: usize)
    requires
        inheritance_state(k),
        tid < k.tasks.len(),
        k.tasks[tid as int].state == TaskState::Running,
    ensures
        inheritance_state(k.op_step(tid).0),
        !(k.tasks[tid as int].current_op() matches Some(Op::Lock(_))) && !(k.tasks[tid as int].current_op() matches Some(
            Op::Unlock(_),
        )) ==> same_priorities(k, k.op_step(tid).0),
{
    let t = k.tasks[tid as int];
    let k2 = k.op_step(tid).0;
    k.lemma_op_step(tid);
    assert(k.task_ok(tid as int));
    match t.current_op() {
        Some(Op::Lock(m)) => {
            assert(crate::kernel::wellformed::op_valid(t.program[t.pc as int], k.mutexes.len(), k.semaphores.len(), k.queues.len()));
            lemma_lock_keeps(k, tid, m);
        },
        Some(Op::Unlock(m)) => {
            assert(crate::kernel::wellformed::op_valid(t.program[t.pc as int], k.mutexes.len(), k.semaphores.len(), k.queues.len()));
            lemma_unlock_keeps(k, tid, m);
        },
        Some(Op::SemSignal(sm)) => {
            assert(crate::kernel::wellformed::op_valid(t.program[t.pc as int], k.mutexes.len(), k.semaphores.len(), k.queues.len()));
            k.lemma_sem_signal_wf(tid, sm);
            let sv = k.semaphores[sm as int];
            let prios = crate::kernel::select::ranks_of(sv.waiters, k.eff_table());
            if sv.waiters.len() > 0 {
                assert(k.sem_ok(sm as int));
                crate::kernel::select::lemma_choice_exists(sv.waiters, prios);
                let b = crate::kernel::select::choice(sv.waiters, prios);
                assert(k.waiter_ok(sv.waiters[b], BlockReason::Semaphore(sm)));
            }
            assert(same_priorities(k, k2));
            lemma_frame(k, k2);
        },
        Some(Op::QueueSend(q, v)) => {
            assert(crate::kernel::wellformed::op_valid(t.program[t.pc as int], k.mutexes.len(), k.semaphores.len(), k.queues.len()));
            assert(k.queue_ok(q as int));
            let qv = k.queues[q as int];
            let ws = qv.recv_waiters;
            if !qv.is_full() && ws.len() > 0 {
                let k1 = k.set_queue(q, qv.after_send(v).0).set_task(tid, t.advanced()).logged(
                    Event::QueueSend { task: tid, queue: q, value: v },
                );
                let prios = crate::kernel::select::ranks_of(ws, k1.eff_table());
                crate::kernel::select::lemma_choice_exists(ws, prios);
                let b = crate::kernel::select::choice(ws, prios);
                assert(ws[b] < k.tasks.len());
            }
            assert(same_priorities(k, k2));
            lemma_frame(k, k2);
        },
        Some(Op::QueueRecv(q)) => {
            assert(crate::kernel::wellformed::op_valid(t.program[t.pc as int], k.mutexes.len(), k.semaphores.len(), k.queues.len()));
            assert(k.queue_ok(q as int));
            let qv = k.queues[q as int];
            let ws = qv.send_waiters;
            if qv.buf.len() > 0 && ws.len() > 0 {
                let k1 = k.set_queue(q, qv.after_recv().0).set_task(tid, t.advanced()).logged(
                    Event::QueueRecv { task: tid, queue: q, value: qv.buf[0] },
                );
                let prios = crate::kernel::select::ranks_of(ws, k1.eff_table());
                crate::kernel::select::lemma_choice_exists(ws, prios);
                let b = crate::kernel::select::choice(ws, prios);
                assert(ws[b] < k.tasks.len());
            }
            assert(same_priorities(k, k2));
            lemma_frame(k, k2);
        },
        _ => {
            assert(same_priorities(k, k2));
            lemma_frame(k, k2);
        },
    }
}

/// A quantum keeps the inheritance state.
pub(crate) proof fn lemma_quantum_keeps(k: KernelView, tid: usize)
    requires
        inheritance_state(k),
        tid < k.tasks.len(),
        k.tasks[tid as int].state == TaskState::Running,
    ensures
        inheritance_state(k.quantum(tid)),
    decreases k.ops_left(tid),
{
    let (k1, go_on) = k.op_step(tid);
    lemma_op_step_keeps(k, tid);
    k.lemma_op_step(tid);
    if go_on && k.makes_progress(k1, tid) {
        lemma_quantum_keeps(k1, tid);
    }
}

/// One tick keeps the inheritance state.
proof fn lemma_stepped_keeps(k: KernelView)
    requires
        inheritance_state(k),
    ensures
        inheritance_state(k.stepped()),
{
    let ks = k.serviced();
    k.lemma_serviced_wf();
    assert(same_priorities(k, ks));
    lemma_frame(k, ks);
    let kr = ks.recorded();
    ks.lemma_recorded_wf();
    lemma_frame(ks, kr);
    match crate::kernel::model::picked(ks.tasks) {
        None => {
            kr.lemma_wf_same_structure(k.stepped());
            lemma_frame(kr, k.stepped());
        },
        Some(tid) => {
            crate::kernel::laws::law_pick_is_highest_ready(ks.tasks);
            let top = crate::kernel::model::max_eff(crate::kernel::model::ready_entries(ks.tasks, ks.tasks.len() as int));
            let kd = kr.dispatch_prep(tid, top);
            kr.lemma_dispatch_prep_wf(tid, top);
            assert(same_priorities(kr, kd));
            lemma_frame(kr, kd);
            lemma_quantum_keeps(kd, tid);
        },
    }
}

/// With priority inheritance on, every mutex holder runs at least at the
/// effective priority of every task waiting on its mutex, at every tick of a run
/// from a kernel where that holds (as it does of every kernel before its first
/// lock); free mutexes stay without waiters and holders keep listing what they
/// hold.
pub proof fn law_holders_cover_waiters(k: KernelView, n: nat)
    requires
        inheritance_state(k),
    ensures
        inheritance_state(k.run_for(n)),
    decreases n,
{
    if n > 0 {
        lemma_stepped_keeps(k);
        law_holders_cover_waiters(k.stepped(), (n - 1) as nat);
    }
}

/// A well-formed kernel whose mutexes are all free with nobody waiting is in the
/// inheritance state once inheritance is on: the state every scenario starts from.
pub proof fn law_fresh_kernel_covers(k: KernelView)
    requires
        k.wf(),
        k.config.priority_inheritance,
        forall|m: int| 0 <= m < k.mutexes.len() ==> (#[trigger] k.mutexes[m]).owner is None && k.mutexes[m].waiters.len()
            == 0,
    ensures
        inheritance_state(k),
{
}

} // verus!
