//! What the kernel promises, proved over its model.
use vstd::prelude::*;
use crate::kernel::{KernelView, ReadyEntry, TaskView};
use crate::kernel::model::{deadline_checked, is_due, is_pick, is_ready, max_eff, misses, picked, ready_entries, released};

verus! {

/// At most one task is the scheduler's pick.
pub proof fn lemma_pick_unique(ts: Seq<TaskView>, a: int, b: int)
    requires
        is_pick(ts, a),
        is_pick(ts, b),
    ensures
        a == b,
{
}

/// A task that satisfies the pick condition is what `picked` returns.
pub proof fn lemma_is_pick_picked(ts: Seq<TaskView>, b: int)
    requires
        is_pick(ts, b),
        ts.len() <= usize::MAX,
    ensures
        picked(ts) == Some(b as usize),
{
    let c = choose|i: int| is_pick(ts, i);
    lemma_pick_unique(ts, b, c);
}

/// The pick over the first `n` tasks, as the scheduler's scan leaves it.
pub open spec fn pick_prefix(ts: Seq<TaskView>, n: int) -> Option<usize>
    decreases n,
{
    if n <= 0 {
        None
    } else {
        let prev = pick_prefix(ts, n - 1);
        if !is_ready(ts[n - 1]) {
            prev
        } else {
            match prev {
                None => Some((n - 1) as usize),
                Some(b) => if ts[n - 1].eff_priority > ts[b as int].eff_priority {
                    Some((n - 1) as usize)
                } else {
                    prev
                },
            }
        }
    }
}

proof fn lemma_pick_prefix(ts: Seq<TaskView>, n: int)
    requires
        0 <= n <= ts.len(),
        ts.len() <= usize::MAX,
    ensures
        match pick_prefix(ts, n) {
            None => forall|j: int| 0 <= j < n ==> !is_ready(ts[j]),
            Some(b) => {
                &&& 0 <= b < n
                &&& is_ready(ts[b as int])
                &&& forall|j: int|
                    0 <= j < n && is_ready(ts[j]) ==> ts[j].eff_priority < ts[b as int].eff_priority || (
                    ts[j].eff_priority == ts[b as int].eff_priority && j >= b)
            },
        },
    decreases n,
{
    if n > 0 {
        lemma_pick_prefix(ts, n - 1);
        let prev = pick_prefix(ts, n - 1);
        if is_ready(ts[n - 1]) {
            match prev {
                None => {},
                Some(b) => {
                    let c = pick_prefix(ts, n).unwrap();
                    assert forall|j: int| 0 <= j < n && is_ready(ts[j]) implies ts[j].eff_priority
                        < ts[c as int].eff_priority || (ts[j].eff_priority == ts[c as int].eff_priority
                        && j >= c) by {
                        if j < n - 1 {
                            assert(ts[j].eff_priority <= ts[b as int].eff_priority);
                        }
                    }
                },
            }
        }
    }
}

/// The scheduler's scan finds exactly `picked`: a ready task of the highest effective
/// priority, the lowest index among those; none when no task is ready.
pub proof fn lemma_pick_prefix_full(ts: Seq<TaskView>)
    requires
        ts.len() <= usize::MAX,
    ensures
        pick_prefix(ts, ts.len() as int) == picked(ts),
{
    lemma_pick_prefix(ts, ts.len() as int);
    match pick_prefix(ts, ts.len() as int) {
        Some(b) => {
            assert(is_pick(ts, b as int));
            lemma_is_pick_picked(ts, b as int);
        },
        None => {
            assert(!exists|i: int| is_pick(ts, i));
        },
    }
}

/// The scheduler picks a ready task with the highest effective priority, the lowest
/// index breaking ties, and idles only when no task is ready.
pub proof fn law_pick_is_highest_ready(ts: Seq<TaskView>)
    requires
        ts.len() <= usize::MAX,
    ensures
        picked(ts) matches Some(t) ==> is_pick(ts, t as int),
        picked(ts) is None <==> forall|j: int| 0 <= j < ts.len() ==> !is_ready(ts[j]),
{
    lemma_pick_prefix_full(ts);
    lemma_pick_prefix(ts, ts.len() as int);
}

/// The ready snapshot lists exactly the ready tasks, in order.
pub(crate) proof fn lemma_ready_entries(ts: Seq<TaskView>, n: int)
    requires
        0 <= n <= ts.len(),
    ensures
        forall|e: int|
            0 <= e < ready_entries(ts, n).len() ==> exists|j: int|
                0 <= j < n && is_ready(ts[j]) && #[trigger] ready_entries(ts, n)[e] == (ReadyEntry {
                    id: ts[j].id,
                    base: ts[j].base_priority,
                    eff: ts[j].eff_priority,
                }),
        forall|j: int|
            0 <= j < n && is_ready(ts[j]) ==> ready_entries(ts, n).contains(
                ReadyEntry { id: ts[j].id, base: ts[j].base_priority, eff: ts[j].eff_priority },
            ),
    decreases n,
{
    if n > 0 {
        lemma_ready_entries(ts, n - 1);
        let prev = ready_entries(ts, n - 1);
        if is_ready(ts[n - 1]) {
            let cur = ready_entries(ts, n);
            assert forall|j: int| 0 <= j < n && is_ready(ts[j]) implies cur.contains(
                ReadyEntry { id: ts[j].id, base: ts[j].base_priority, eff: ts[j].eff_priority },
            ) by {
                if j < n - 1 {
                    let x = ReadyEntry { id: ts[j].id, base: ts[j].base_priority, eff: ts[j].eff_priority };
                    let e = choose|e: int| 0 <= e < prev.len() && prev[e] == x;
                    assert(cur[e] == x);
                } else {
                    assert(cur[prev.len() as int] == ReadyEntry {
                        id: ts[j].id,
                        base: ts[j].base_priority,
                        eff: ts[j].eff_priority,
                    });
                }
            }
            assert forall|e: int| 0 <= e < cur.len() implies exists|j: int|
                0 <= j < n && is_ready(ts[j]) && #[trigger] cur[e] == (ReadyEntry {
                    id: ts[j].id,
                    base: ts[j].base_priority,
                    eff: ts[j].eff_priority,
                }) by {
                if e < prev.len() {
                    assert(cur[e] == prev[e]);
                } else {
                    assert(cur[e] == ReadyEntry {
                        id: ts[n - 1].id,
                        base: ts[n - 1].base_priority,
                        eff: ts[n - 1].eff_priority,
                    });
                }
            }
        }
    }
}

/// The highest effective priority of a snapshot bounds every entry and, unless the
/// snapshot is empty, is carried by one of them.
pub proof fn lemma_max_eff(rs: Seq<ReadyEntry>)
    ensures
        forall|e: int| 0 <= e < rs.len() ==> rs[e].eff <= max_eff(rs),
        rs.len() > 0 ==> exists|e: int| 0 <= e < rs.len() && rs[e].eff == max_eff(rs),
        rs.len() == 0 ==> max_eff(rs) == 0,
    decreases rs.len(),
{
    if rs.len() > 0 {
        let d = rs.drop_last();
        lemma_max_eff(d);
        assert forall|e: int| 0 <= e < rs.len() implies rs[e].eff <= max_eff(rs) by {
            if e < rs.len() - 1 {
                assert(rs[e] == d[e]);
            }
        }
        if rs.last().eff > max_eff(d) {
            assert(rs[rs.len() - 1].eff == max_eff(rs));
        } else if d.len() > 0 {
            let e = choose|e: int| 0 <= e < d.len() && d[e].eff == max_eff(d);
            assert(rs[e] == d[e]);
        }
    }
}

/// The task the scheduler runs carries the highest effective priority in the ready
/// snapshot recorded for that tick, and appears in it.
pub proof fn law_pick_carries_top_priority(ts: Seq<TaskView>)
    requires
        ts.len() <= usize::MAX,
        forall|i: int| 0 <= i < ts.len() ==> ts[i].id == i,
    ensures
        picked(ts) matches Some(t) ==> {
            &&& ts[t as int].eff_priority == max_eff(ready_entries(ts, ts.len() as int))
            &&& ready_entries(ts, ts.len() as int).contains(
                ReadyEntry { id: t, base: ts[t as int].base_priority, eff: ts[t as int].eff_priority },
            )
        },
{
    law_pick_is_highest_ready(ts);
    let rs = ready_entries(ts, ts.len() as int);
    lemma_ready_entries(ts, ts.len() as int);
    lemma_max_eff(rs);
    match picked(ts) {
        Some(t) => {
            assert(rs.contains(
                ReadyEntry { id: ts[t as int].id, base: ts[t as int].base_priority, eff: ts[t as int].eff_priority },
            ));
            let e0 = choose|e: int|
                0 <= e < rs.len() && rs[e] == ReadyEntry {
                    id: ts[t as int].id,
                    base: ts[t as int].base_priority,
                    eff: ts[t as int].eff_priority,
                };
            let e = choose|e: int| 0 <= e < rs.len() && rs[e].eff == max_eff(rs);
            let j = choose|j: int|
                0 <= j < ts.len() && is_ready(ts[j]) && #[trigger] rs[e] == (ReadyEntry {
                    id: ts[j].id,
                    base: ts[j].base_priority,
                    eff: ts[j].eff_priority,
                });
            assert(rs[e0].eff <= max_eff(rs));
        },
        None => {},
    }
}

/// A run is a function of the kernel's state alone: two kernels in the same state
/// (the same configuration, seed and task set) go through the same states tick for
/// tick, and so log the same events.
pub proof fn law_run_is_deterministic(k1: KernelView, k2: KernelView, n: nat)
    requires
        k1 == k2,
    ensures
        k1.run_for(n) == k2.run_for(n),
        k1.run_for(n).log == k2.run_for(n).log,
{
}

/// A periodic job released by the tick ISR at tick `r` owns ticks `r` to
/// `r + p - 1`: the release makes it ready at the top of its program with its
/// deadline at `r + p` and its successor due `p` ticks after this one; the ISR of
/// any tick from `r + p` on flags it if it is still active, exactly once, and no
/// ISR before `r + p` does.
pub proof fn law_job_owns_its_period(t: TaskView, r: u64, p: u64, now: u64, later: u64)
    requires
        t.period == Some(p),
        p >= 1,
        is_due(t, r),
        r + p < u64::MAX,
        t.next_release + p <= u64::MAX,
        t.jobs_released < u64::MAX,
        t.deadlines_missed < u64::MAX,
        now <= later,
    ensures
        ({
            let u = released(t, r);
            &&& u.state == crate::kernel::TaskState::Ready
            &&& u.job_active
            &&& u.pc == 0
            &&& u.jobs_released == t.jobs_released + 1
            &&& u.deadline == r + p
            &&& u.next_release == t.next_release + p
            &&& !u.missed_current
            &&& (misses(u, now) <==> now >= r + p)
            &&& (now >= r + p ==> {
                let v = deadline_checked(u, now);
                &&& v.deadlines_missed == u.deadlines_missed + 1
                &&& !misses(v, later)
            })
        }),
{
}

/// A delay parks the task and moves it past the delay: when the operation a task
/// is at is `Delay(n)` with `n > 0`, its quantum ends with the task blocked asleep,
/// its program counter one past the delay, and its wake time `n` ticks from now; once
/// the tick ISR at that time wakes it, it is ready at the operation after the delay.
pub proof fn law_delay_sleeps_then_moves_on(k: KernelView, tid: usize, n: u64)
    requires
        k.wf(),
        tid < k.tasks.len(),
        k.tasks[tid as int].current_op() == Some(crate::kernel::Op::Delay(n)),
        n > 0,
        k.now + n <= u64::MAX,
    ensures
        ({
            let t = k.tasks[tid as int];
            let u = k.quantum(tid).tasks[tid as int];
            let w = crate::kernel::model::slept(u, (k.now + n) as u64);
            &&& u.pc == t.pc + 1
            &&& u.program == t.program
            &&& u.state == crate::kernel::TaskState::Blocked
            &&& u.blocked_on == Some(crate::kernel::BlockReason::Sleep)
            &&& u.wake_at == k.now + n
            &&& u.cpu_ticks == t.cpu_ticks
            &&& k.quantum(tid).running is None
            &&& k.quantum(tid).log == k.log.push(crate::kernel::Event::Sleep { task: tid, until: (k.now + n) as u64 })
            &&& k.quantum(tid).tasks.len() == k.tasks.len()
            &&& (forall|x: int| 0 <= x < k.tasks.len() && x != tid ==> #[trigger] k.quantum(tid).tasks[x] == k.tasks[x])
            &&& k.quantum(tid).mutexes == k.mutexes
            &&& k.quantum(tid).now == k.now
            &&& w.state == crate::kernel::TaskState::Ready
            &&& w.blocked_on is None
            &&& w.pc == t.pc + 1
            &&& (t.pc + 1 < t.program.len() ==> w.current_op() == Some(t.program[t.pc + 1]))
        }),
{
    assert(k.task_ok(tid as int));
    let (k1, go_on) = k.op_step(tid);
    assert(!go_on);
    assert(k.quantum(tid) == k1);
}

/// A delay of zero ticks is passed over within the quantum: the task moves past it
/// and, still ready, goes on with its next operation in the same quantum.
pub proof fn law_zero_delay_passes(k: KernelView, tid: usize)
    requires
        k.wf(),
        tid < k.tasks.len(),
        k.tasks[tid as int].current_op() == Some(crate::kernel::Op::Delay(0)),
    ensures
        ({
            let t = k.tasks[tid as int];
            let (k1, go_on) = k.op_step(tid);
            &&& go_on
            &&& k1.tasks[tid as int].pc == t.pc + 1
            &&& k1.tasks[tid as int].state == t.state
            &&& k1.tasks[tid as int].blocked_on == t.blocked_on
        }),
{
    assert(k.task_ok(tid as int));
}

/// The run's deadline-miss total counts misses, not tasks: a single task's total is
/// its own miss count.
pub proof fn law_total_misses_of_one(t: TaskView)
    ensures
        crate::kernel::model::total_misses(seq![t], 1) == t.deadlines_missed,
{
    assert(crate::kernel::model::total_misses(seq![t], 0) == 0);
}

proof fn lemma_total_misses_bump(ts: Seq<TaskView>, i: int, t2: TaskView, n: int)
    requires
        0 <= i < ts.len(),
        0 <= n <= ts.len(),
        t2.deadlines_missed == ts[i].deadlines_missed + 1,
    ensures
        crate::kernel::model::total_misses(ts.update(i, t2), n) == crate::kernel::model::total_misses(ts, n) + if i
            < n {
            1int
        } else {
            0int
        },
    decreases n,
{
    if n > 0 {
        lemma_total_misses_bump(ts, i, t2, n - 1);
    }
}

/// One more missed deadline of any one task raises the run's total by exactly one,
/// whatever the task had missed before.
pub proof fn law_one_more_miss_counts_once(ts: Seq<TaskView>, i: int)
    requires
        0 <= i < ts.len(),
        ts[i].deadlines_missed < u64::MAX,
    ensures
        crate::kernel::model::total_misses(
            ts.update(i, TaskView { deadlines_missed: (ts[i].deadlines_missed + 1) as u64, ..ts[i] }),
            ts.len() as int,
        ) == crate::kernel::model::total_misses(ts, ts.len() as int) + 1,
{
    lemma_total_misses_bump(
        ts,
        i,
        TaskView { deadlines_missed: (ts[i].deadlines_missed + 1) as u64, ..ts[i] },
        ts.len() as int,
    );
}

/// The highest priority among waiters is the start or one of theirs.
proof fn lemma_waiters_max_attained(effs: Seq<u8>, ws: Seq<usize>, n: int, p: u8)
    ensures
        crate::kernel::model::waiters_max(effs, ws, n, p) == p || exists|j: int|
            0 <= j < n && crate::kernel::model::waiters_max(effs, ws, n, p) == effs[#[trigger] ws[j] as int],
    decreases n,
{
    if n > 0 {
        lemma_waiters_max_attained(effs, ws, n - 1, p);
    }
}

/// What a holder is entitled to is its start or the priority of a waiter of one of
/// the mutexes it lists.
proof fn lemma_held_max_attained(k: KernelView, ms: Seq<usize>, n: int, p: u8)
    ensures
        k.held_max(ms, n, p) == p || exists|i: int, j: int|
            0 <= i < n && 0 <= j < k.mutexes[ms[i] as int].waiters.len() && k.held_max(ms, n, p)
                == k.eff_table()[#[trigger] k.mutexes[ms[i] as int].waiters[j] as int],
    decreases n,
{
    if n > 0 {
        lemma_held_max_attained(k, ms, n - 1, p);
        let q = k.held_max(ms, n - 1, p);
        let ws = k.mutexes[ms[n - 1] as int].waiters;
        lemma_waiters_max_attained(k.eff_table(), ws, ws.len() as int, q);
        if k.held_max(ms, n, p) != q {
            let j = choose|j: int| 0 <= j < ws.len() && k.held_max(ms, n, p) == k.eff_table()[#[trigger] ws[j] as int];
            assert(k.mutexes[ms[n - 1] as int].waiters[j] == ws[j]);
        }
    }
}

/// Recomputing a holder's priority gives exactly the highest of its own priority
/// and the effective priorities of the tasks waiting on the mutexes it still holds:
/// at least each of them, and equal to one of them. A holder whose mutexes nobody
/// waits on falls back to its own priority. No other task's priority moves.
pub proof fn law_recompute_takes_the_highest_claim(k: KernelView, h: usize)
    requires
        k.holder_refs_ok(h as int),
    ensures
        ({
            let t = k.tasks[h as int];
            let p = k.recomputed(h).tasks[h as int].eff_priority;
            &&& p >= t.base_priority
            &&& forall|i: int, j: int|
                0 <= i < t.held_mutexes.len() && 0 <= j < k.mutexes[t.held_mutexes[i] as int].waiters.len() ==> p
                    >= k.tasks[#[trigger] k.mutexes[t.held_mutexes[i] as int].waiters[j] as int].eff_priority
            &&& (p == t.base_priority || exists|i: int, j: int|
                0 <= i < t.held_mutexes.len() && 0 <= j < k.mutexes[t.held_mutexes[i] as int].waiters.len() && p
                    == k.tasks[#[trigger] k.mutexes[t.held_mutexes[i] as int].waiters[j] as int].eff_priority)
            &&& ((forall|i: int| 0 <= i < t.held_mutexes.len() ==> #[trigger] k.mutexes[t.held_mutexes[i] as int].waiters.len() == 0)
                ==> p == t.base_priority)
            &&& k.recomputed(h).tasks.len() == k.tasks.len()
            &&& forall|x: int| 0 <= x < k.tasks.len() && x != h ==> #[trigger] k.recomputed(h).tasks[x] == k.tasks[x]
            &&& k.recomputed(h).log == if p != t.eff_priority {
                k.log.push(crate::kernel::Event::Restore { holder: h, to: p })
            } else {
                k.log
            }
            &&& k.recomputed(h).mutexes == k.mutexes
            &&& k.recomputed(h).tasks[h as int] == (TaskView { eff_priority: p, ..t })
        }),
{
    let t = k.tasks[h as int];
    let ms = t.held_mutexes;
    crate::kernel::boost::lemma_held_max(k, ms, ms.len() as int, t.base_priority);
    lemma_held_max_attained(k, ms, ms.len() as int, t.base_priority);
    let p = k.recomputed(h).tasks[h as int].eff_priority;
    assert(p == k.entitled(h));
    assert forall|i: int, j: int|
        0 <= i < ms.len() && 0 <= j < k.mutexes[ms[i] as int].waiters.len() implies p
            >= k.tasks[#[trigger] k.mutexes[ms[i] as int].waiters[j] as int].eff_priority by {
        assert(k.mutex_refs_ok(ms[i] as int));
        let w = k.mutexes[ms[i] as int].waiters[j];
        assert(k.eff_table()[w as int] == k.tasks[w as int].eff_priority);
    }
    if p != t.base_priority {
        let (i, j) = choose|i: int, j: int|
            0 <= i < ms.len() && 0 <= j < k.mutexes[ms[i] as int].waiters.len() && k.held_max(ms, ms.len() as int, t.base_priority)
                == k.eff_table()[#[trigger] k.mutexes[ms[i] as int].waiters[j] as int];
        assert(k.mutex_refs_ok(ms[i] as int));
        let w = k.mutexes[ms[i] as int].waiters[j];
        assert(k.eff_table()[w as int] == k.tasks[w as int].eff_priority);
        assert(p == k.tasks[k.mutexes[ms[i] as int].waiters[j] as int].eff_priority);
    }
}

} // verus!
