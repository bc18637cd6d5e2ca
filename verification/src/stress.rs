//! The scenarios of the max-scale stress harness and the event folds that check
//! them. Each scenario is sized from its task count so it stays schedulable at any
//! scale; the program around the library runs it in chunks and reports.
use vstd::prelude::*;
use crate::kernel::{view_mutexes, view_queues, view_tasks, Config, Event, Kernel, KernelView, MutexView, Op, QueueView, ReadyEntry, SemaphoreView, TaskView, TickRecord, TickRecordView};
use crate::kernel::model::max_eff;
use std::collections::VecDeque;
use crate::kernel::task::budget;
use crate::text::decimal;
use crate::workload::{indexed_name, scenario_base, scenario_kernel, stage, staged};

verus! {

/// The configuration every stress scenario runs under.
pub fn base_config(seed: u64, priority_inheritance: bool) -> (c: Config)
    ensures
        c == (Config { seed, priority_inheritance, ..Config::default_spec() }),
{
    Config { seed, priority_inheritance, ..Config::default() }
}

/// `x` kept within `[lo, hi]`.
pub open spec fn clamped(x: int, lo: int, hi: int) -> int {
    if x < lo {
        lo
    } else if x > hi {
        hi
    } else {
        x
    }
}

fn clamp(x: usize, lo: usize, hi: usize) -> (r: usize)
    requires
        lo <= hi,
    ensures
        r == clamped(x as int, lo as int, hi as int),
{
    if x < lo {
        lo
    } else if x > hi {
        hi
    } else {
        x
    }
}

// ----- lockstorm -----

/// The critical section the low holders of the lock storm run under the mutex.
pub const LOCKSTORM_CS: u64 = 3;

/// The holders' program in the lock storm.
pub open spec fn holder_program() -> Seq<Op> {
    seq![Op::Compute(1), Op::Lock(0), Op::Compute(LOCKSTORM_CS), Op::Unlock(0)]
}

/// The boss's program in the lock storm.
pub open spec fn boss_program() -> Seq<Op> {
    seq![Op::Compute(1), Op::Lock(0), Op::Compute(2), Op::Unlock(0)]
}

/// The lock storm: one mutex, a class of low holders (`n_tasks / 20`, kept within
/// 3 to 12) that take it for a fixed critical section, a class of compute hogs
/// (`n_tasks / 30`, kept within 2 to 8) that never touch it, and one boss above
/// everything that takes it every 20 ticks. The periods grow with the class sizes
/// so utilization stays near one half at any scale. Returns the kernel and the
/// boss's id.
pub fn build_lockstorm(n_tasks: usize, seed: u64, inherit: bool) -> (res: (Kernel, usize))
    ensures
        ({
            let (k, boss) = res;
            let holders = clamped(n_tasks as int / 20, 3, 12);
            let mids = clamped(n_tasks as int / 30, 2, 8);
            &&& scenario_base(k@, Config { seed, priority_inheritance: inherit, ..Config::default_spec() }, 1)
            &&& boss == holders + mids
            &&& k@.tasks.len() == holders + mids + 1
            &&& forall|i: int|
                0 <= i < holders ==> #[trigger] k@.tasks[i] == staged(
                    i as usize,
                    "lo"@ + decimal(i as nat),
                    (1 + i % 3) as u8,
                    Some((holders * 10) as u64),
                    holder_program(),
                    1,
                )
            &&& forall|i: int|
                0 <= i < mids ==> #[trigger] k@.tasks[holders + i] == staged(
                    (holders + i) as usize,
                    "mid"@ + decimal(i as nat),
                    (5 + i % 3) as u8,
                    Some((mids * 20) as u64),
                    seq![Op::Compute(2)],
                    1,
                )
            &&& k@.tasks[boss as int] == staged(boss, "boss"@, 10, Some(20), boss_program(), 1)
        }),
{
    let config = base_config(seed, inherit);
    let mut k = scenario_kernel(config, 1);
    let m: usize = 0;
    let holders = clamp(n_tasks / 20, 3, 12);
    let mids = clamp(n_tasks / 30, 2, 8);
    let hold_period = (holders as u64) * 10;
    let mid_period = (mids as u64) * 20;
    proof {
        reveal_with_fuel(budget, 5);
    }
    let mut i: usize = 0;
    while i < holders
        invariant
            i <= holders <= 12,
            m == 0,
            hold_period == holders * 10,
            scenario_base(k@, config, 1),
            k@.tasks.len() == i,
            forall|j: int|
                0 <= j < i ==> #[trigger] k@.tasks[j] == staged(
                    j as usize,
                    "lo"@ + decimal(j as nat),
                    (1 + j % 3) as u8,
                    Some(hold_period),
                    holder_program(),
                    1,
                ),
        decreases holders - i,
    {
        let program = vec![Op::Compute(1), Op::Lock(m), Op::Compute(LOCKSTORM_CS), Op::Unlock(m)];
        assert(program@ =~= holder_program());
        proof {
            reveal_with_fuel(budget, 5);
        }
        let name = indexed_name("lo", i);
        stage(&mut k, name.as_str(), 1 + (i % 3) as u8, Some(hold_period), program, 1);
        i = i + 1;
    }
    let mut j: usize = 0;
    while j < mids
        invariant
            j <= mids <= 8,
            holders <= 12,
            mid_period == mids * 20,
            hold_period == holders * 10,
            scenario_base(k@, config, 1),
            k@.tasks.len() == holders + j,
            forall|x: int|
                0 <= x < holders ==> #[trigger] k@.tasks[x] == staged(
                    x as usize,
                    "lo"@ + decimal(x as nat),
                    (1 + x % 3) as u8,
                    Some(hold_period),
                    holder_program(),
                    1,
                ),
            forall|x: int|
                0 <= x < j ==> #[trigger] k@.tasks[holders + x] == staged(
                    (holders + x) as usize,
                    "mid"@ + decimal(x as nat),
                    (5 + x % 3) as u8,
                    Some(mid_period),
                    seq![Op::Compute(2)],
                    1,
                ),
        decreases mids - j,
    {
        let program = vec![Op::Compute(2)];
        assert(program@ =~= seq![Op::Compute(2)]);
        proof {
            reveal_with_fuel(budget, 2);
        }
        let name = indexed_name("mid", j);
        stage(&mut k, name.as_str(), 5 + (j % 3) as u8, Some(mid_period), program, 1);
        j = j + 1;
    }
    let boss = holders + mids;
    let program = vec![Op::Compute(1), Op::Lock(m), Op::Compute(2), Op::Unlock(m)];
    assert(program@ =~= boss_program());
    proof {
        reveal_with_fuel(budget, 5);
    }
    stage(&mut k, "boss", 10, Some(20), program, 1);
    (k, boss)
}

// ----- building blocks -----

/// A kernel before its first tick, configured by `config`, with an empty log and a
/// fresh machine.
pub open spec fn fresh_run(k: KernelView, config: Config) -> bool {
    &&& k.wf()
    &&& k.config == config
    &&& k.log.len() == 0
    &&& k.records.len() == 0
    &&& k.now == 0
    &&& k.running is None
    &&& k.idle_ticks == 0
    &&& k.invariant_violations == 0
    &&& k.rng == crate::rng::seeded_state(config.seed)
    &&& k.mcu == crate::mcu::McuView::fresh(config.ram, config.tick_reload)
}

/// `pair` repeated `r` times.
pub open spec fn repeated(pair: Seq<Op>, r: nat) -> Seq<Op> {
    Seq::new(2 * r, |j: int| pair[j % 2])
}

/// The herd's program on semaphore `s`: a producer's `reps` times (compute a tick,
/// then signal), or a consumer's (wait, then compute a tick).
fn herd_program(s: usize, producer: bool, reps: usize) -> (p: Vec<Op>)
    requires
        reps * 2 <= usize::MAX,
    ensures
        p@ == repeated(
            if producer {
                seq![Op::Compute(1), Op::SemSignal(s)]
            } else {
                seq![Op::SemWait(s), Op::Compute(1)]
            },
            reps as nat,
        ),
        budget(p@) == reps,
{
    let ghost pair = if producer {
        seq![Op::Compute(1), Op::SemSignal(s)]
    } else {
        seq![Op::SemWait(s), Op::Compute(1)]
    };
    let mut p: Vec<Op> = Vec::new();
    let mut i: usize = 0;
    while i < reps
        invariant
            i <= reps,
            reps * 2 <= usize::MAX,
            pair == (if producer {
                seq![Op::Compute(1), Op::SemSignal(s)]
            } else {
                seq![Op::SemWait(s), Op::Compute(1)]
            }),
            p@ == repeated(pair, i as nat),
            budget(p@) == i,
        decreases reps - i,
    {
        let ghost before = p@;
        if producer {
            p.push(Op::Compute(1));
        } else {
            p.push(Op::SemWait(s));
        }
        proof {
            assert(p@.drop_last() =~= before);
            assert(budget(p@) == budget(before) + crate::kernel::task::op_cost(p@.last()));
        }
        let ghost mid = p@;
        if producer {
            p.push(Op::SemSignal(s));
        } else {
            p.push(Op::Compute(1));
        }
        proof {
            assert(p@.drop_last() =~= mid);
            assert(budget(p@) == budget(mid) + crate::kernel::task::op_cost(p@.last()));
            assert(p@ =~= repeated(pair, (i + 1) as nat));
        }
        i = i + 1;
    }
    p
}

/// `op(i)` for `i` below `reps`, for the operations that cost no CPU.
fn free_ops_sends(q: usize, tag: u32, reps: usize) -> (p: Vec<Op>)
    ensures
        p@ == Seq::new(reps as nat, |i: int| Op::QueueSend(q, tag | (i as u32))),
        budget(p@) == 0,
{
    let mut p: Vec<Op> = Vec::new();
    let mut i: usize = 0;
    while i < reps
        invariant
            i <= reps,
            p@ == Seq::new(i as nat, |j: int| Op::QueueSend(q, tag | (j as u32))),
            budget(p@) == 0,
        decreases reps - i,
    {
        let ghost before = p@;
        p.push(Op::QueueSend(q, tag | (i as u32)));
        proof {
            assert(p@.drop_last() =~= before);
            assert(p@ =~= Seq::new((i + 1) as nat, |j: int| Op::QueueSend(q, tag | (j as u32))));
        }
        i = i + 1;
    }
    p
}

fn free_ops_recvs(q: usize, reps: usize) -> (p: Vec<Op>)
    ensures
        p@ == Seq::new(reps as nat, |i: int| Op::QueueRecv(q)),
        budget(p@) == 0,
{
    let mut p: Vec<Op> = Vec::new();
    let mut i: usize = 0;
    while i < reps
        invariant
            i <= reps,
            p@ == Seq::new(i as nat, |j: int| Op::QueueRecv(q)),
            budget(p@) == 0,
        decreases reps - i,
    {
        let ghost before = p@;
        p.push(Op::QueueRecv(q));
        proof {
            assert(p@.drop_last() =~= before);
            assert(p@ =~= Seq::new((i + 1) as nat, |j: int| Op::QueueRecv(q)));
        }
        i = i + 1;
    }
    p
}

// ----- herd -----

/// Each side of the herd: `n_tasks / 2`, at least one.
pub open spec fn herd_side(n_tasks: usize) -> int {
    if n_tasks / 2 < 1 {
        1
    } else {
        n_tasks as int / 2
    }
}

/// `reps`, at least one.
pub open spec fn at_least_one(reps: usize) -> int {
    if reps < 1 {
        1
    } else {
        reps as int
    }
}

/// The period of the herd's waves: three times the total demand, and at least four
/// jobs' worth.
pub open spec fn herd_wave(n_tasks: usize, reps: usize) -> int {
    let demand = 2 * herd_side(n_tasks) * at_least_one(reps);
    if demand * 3 > 4 * at_least_one(reps) {
        demand * 3
    } else {
        4 * at_least_one(reps)
    }
}

/// The semaphore thundering herd: `n_tasks / 2` producers (at least one) signal a
/// semaphore `reps` times a job, as many consumers at higher priorities wait on it
/// as often, all released in waves sized from the demand so the load stays near a
/// third at any scale. Returns the kernel and the semaphore's id.
pub fn build_herd(n_tasks: usize, reps: usize, seed: u64) -> (res: (Kernel, usize))
    requires
        2 * herd_side(n_tasks) * at_least_one(reps) * 3 <= u64::MAX,
        reps * 2 <= usize::MAX,
    ensures
        ({
            let (k, s) = res;
            let side = herd_side(n_tasks);
            let wave = herd_wave(n_tasks, reps) as u64;
            &&& fresh_run(k@, Config { seed, priority_inheritance: true, ..Config::default_spec() })
            &&& s == 0
            &&& k@.mutexes.len() == 0
            &&& k@.semaphores == seq![SemaphoreView::initial(0, u32::MAX)]
            &&& k@.queues.len() == 0
            &&& k@.tasks.len() == 2 * side
            &&& forall|i: int|
                0 <= i < side ==> #[trigger] k@.tasks[i] == staged(
                    i as usize,
                    "prod"@ + decimal(i as nat),
                    (1 + i % 4) as u8,
                    Some(wave),
                    repeated(seq![Op::Compute(1), Op::SemSignal(0)], reps as nat),
                    1,
                )
            &&& forall|i: int|
                0 <= i < side ==> #[trigger] k@.tasks[side + i] == staged(
                    (side + i) as usize,
                    "cons"@ + decimal(i as nat),
                    (6 + i % 4) as u8,
                    Some(wave),
                    repeated(seq![Op::SemWait(0), Op::Compute(1)], reps as nat),
                    1,
                )
        }),
{
    let config = base_config(seed, true);
    let mut k = scenario_kernel(config, 0);
    proof {
        k@.lemma_new_semaphore_wf(SemaphoreView::initial(0, u32::MAX));
    }
    let s = k.add_semaphore(0, u32::MAX);
    proof {
        assert(k@.semaphores =~= seq![SemaphoreView::initial(0, u32::MAX)]);
    }
    let side = if n_tasks / 2 < 1 {
        1
    } else {
        n_tasks / 2
    };
    let r: u64 = if reps < 1 {
        1
    } else {
        reps as u64
    };
    assert(2 * (side as u64) * r * 3 >= 4 * r) by (nonlinear_arith)
        requires
            side >= 1,
    ;
    let demand = 2 * (side as u64) * r;
    let wave = if demand * 3 > 4 * r {
        demand * 3
    } else {
        4 * r
    };
    let mut i: usize = 0;
    while i < side
        invariant
            i <= side,
            side == herd_side(n_tasks),
            s == 0,
            reps * 2 <= usize::MAX,
            wave == herd_wave(n_tasks, reps),
            fresh_run(k@, config),
            k@.mutexes.len() == 0,
            k@.semaphores == seq![SemaphoreView::initial(0, u32::MAX)],
            k@.queues.len() == 0,
            k@.tasks.len() == i,
            forall|j: int|
                0 <= j < i ==> #[trigger] k@.tasks[j] == staged(
                    j as usize,
                    "prod"@ + decimal(j as nat),
                    (1 + j % 4) as u8,
                    Some(wave),
                    repeated(seq![Op::Compute(1), Op::SemSignal(0)], reps as nat),
                    1,
                ),
        decreases side - i,
    {
        let program = herd_program(s, true, reps);
        let name = indexed_name("prod", i);
        stage(&mut k, name.as_str(), 1 + (i % 4) as u8, Some(wave), program, 1);
        i = i + 1;
    }
    let mut j: usize = 0;
    while j < side
        invariant
            j <= side,
            side == herd_side(n_tasks),
            s == 0,
            reps * 2 <= usize::MAX,
            wave == herd_wave(n_tasks, reps),
            fresh_run(k@, config),
            k@.mutexes.len() == 0,
            k@.semaphores == seq![SemaphoreView::initial(0, u32::MAX)],
            k@.queues.len() == 0,
            k@.tasks.len() == side + j,
            forall|x: int|
                0 <= x < side ==> #[trigger] k@.tasks[x] == staged(
                    x as usize,
                    "prod"@ + decimal(x as nat),
                    (1 + x % 4) as u8,
                    Some(wave),
                    repeated(seq![Op::Compute(1), Op::SemSignal(0)], reps as nat),
                    1,
                ),
            forall|x: int|
                0 <= x < j ==> #[trigger] k@.tasks[side + x] == staged(
                    (side + x) as usize,
                    "cons"@ + decimal(x as nat),
                    (6 + x % 4) as u8,
                    Some(wave),
                    repeated(seq![Op::SemWait(0), Op::Compute(1)], reps as nat),
                    1,
                ),
        decreases side - j,
    {
        let program = herd_program(s, false, reps);
        let name = indexed_name("cons", j);
        stage(&mut k, name.as_str(), 6 + (j % 4) as u8, Some(wave), program, 1);
        j = j + 1;
    }
    (k, s)
}

// ----- queuechurn -----

/// The number of queues the churn drives: `n_tasks / 8`, kept within 2 to 16.
pub open spec fn churn_queues(n_tasks: usize) -> int {
    clamped(n_tasks as int / 8, 2, 16)
}

/// The period of the churn's waves: three times the total demand, and at least four
/// jobs' worth.
pub open spec fn churn_wave(n_tasks: usize, reps: usize) -> int {
    let demand = 2 * churn_queues(n_tasks) * at_least_one(reps);
    if demand * 3 > 4 * at_least_one(reps) {
        demand * 3
    } else {
        4 * at_least_one(reps)
    }
}

/// The producer program of queue `q` in the churn: `reps` sends of distinct values
/// tagged with the queue's number in the top byte.
pub open spec fn churn_sends(q: int, reps: usize) -> Seq<Op> {
    Seq::new(reps as nat, |i: int| Op::QueueSend(q as usize, ((q as u32) << 24u32) | (i as u32)))
}

/// Queue churn: `n_tasks / 8` small queues (kept within 2 to 16, capacities one to
/// four in turn), each with a low-priority producer sending `reps` values a job and
/// a high-priority consumer receiving as many, so every queue is driven full and
/// empty over and over; waves are sized from the demand.
pub fn build_queuechurn(n_tasks: usize, reps: usize, seed: u64) -> (k: Kernel)
    requires
        2 * churn_queues(n_tasks) * at_least_one(reps) * 3 <= u64::MAX,
    ensures
        ({
            let nq = churn_queues(n_tasks);
            let wave = churn_wave(n_tasks, reps) as u64;
            &&& fresh_run(k@, Config { seed, priority_inheritance: true, ..Config::default_spec() })
            &&& k@.mutexes.len() == 0
            &&& k@.semaphores.len() == 0
            &&& k@.queues == Seq::new(nq as nat, |q: int| QueueView::initial((q % 4 + 1) as usize))
            &&& k@.tasks.len() == 2 * nq
            &&& forall|q: int|
                0 <= q < nq ==> #[trigger] k@.tasks[2 * q] == staged(
                    (2 * q) as usize,
                    "qp"@ + decimal(q as nat),
                    3,
                    Some(wave),
                    churn_sends(q, reps),
                    1,
                ) && k@.tasks[2 * q + 1] == staged(
                    (2 * q + 1) as usize,
                    "qc"@ + decimal(q as nat),
                    8,
                    Some(wave),
                    Seq::new(reps as nat, |i: int| Op::QueueRecv(q as usize)),
                    1,
                )
        }),
{
    let config = base_config(seed, true);
    let mut k = scenario_kernel(config, 0);
    let nq = clamp(n_tasks / 8, 2, 16);
    let r: u64 = if reps < 1 {
        1
    } else {
        reps as u64
    };
    assert(2 * (nq as u64) * r * 3 >= 4 * r) by (nonlinear_arith)
        requires
            nq >= 2,
    ;
    let demand = 2 * (nq as u64) * r;
    let wave = if demand * 3 > 4 * r {
        demand * 3
    } else {
        4 * r
    };
    assert(k@.queues =~= Seq::new(0, |q: int| QueueView::initial((q % 4 + 1) as usize)));
    let mut qi: usize = 0;
    while qi < nq
        invariant
            qi <= nq <= 16,
            nq == churn_queues(n_tasks),
            wave == churn_wave(n_tasks, reps),
            fresh_run(k@, config),
            k@.mutexes.len() == 0,
            k@.semaphores.len() == 0,
            k@.queues == Seq::new(qi as nat, |q: int| QueueView::initial((q % 4 + 1) as usize)),
            k@.tasks.len() == 2 * qi,
            forall|q: int|
                0 <= q < qi ==> #[trigger] k@.tasks[2 * q] == staged(
                    (2 * q) as usize,
                    "qp"@ + decimal(q as nat),
                    3,
                    Some(wave),
                    churn_sends(q, reps),
                    1,
                ) && k@.tasks[2 * q + 1] == staged(
                    (2 * q + 1) as usize,
                    "qc"@ + decimal(q as nat),
                    8,
                    Some(wave),
                    Seq::new(reps as nat, |i: int| Op::QueueRecv(q as usize)),
                    1,
                ),
        decreases nq - qi,
    {
        let cap = qi % 4 + 1;
        proof {
            k@.lemma_new_queue_wf(QueueView::initial(cap));
        }
        let q = k.add_queue(cap);
        proof {
            assert(k@.queues =~= Seq::new((qi + 1) as nat, |x: int| QueueView::initial((x % 4 + 1) as usize)));
        }
        let tag: u32 = (qi as u32) << 24u32;
        let send = free_ops_sends(q, tag, reps);
        assert(send@ =~= churn_sends(qi as int, reps));
        let pname = indexed_name("qp", qi);
        stage(&mut k, pname.as_str(), 3, Some(wave), send, 1);
        let recv = free_ops_recvs(q, reps);
        let cname = indexed_name("qc", qi);
        stage(&mut k, cname.as_str(), 8, Some(wave), recv, 1);
        qi = qi + 1;
    }
    k
}

// ----- manytasks -----

/// The priority of task `i` of `n` in the many-task scenario: the first at 0, the
/// last at 255, the others spread over 1 to 254.
pub open spec fn spread_priority(i: int, n: int) -> u8 {
    if i == 0 {
        0
    } else if i == n - 1 {
        255
    } else {
        ((i * 37) % 254 + 1) as u8
    }
}

/// The program of task `i` in the many-task scenario: each task touches exactly
/// one synchronization object (mutexes 0 to 7, semaphores 0 to 3, queues 0 to 3)
/// in one role, so no wait cycle can form across objects.
pub open spec fn spread_program(i: int) -> Seq<Op> {
    let r = i % 8;
    if r == 0 {
        seq![Op::Compute(2)]
    } else if r == 1 || r == 5 {
        let m = (i % 8) as usize;
        seq![Op::Compute(1), Op::Lock(m), Op::Compute(2), Op::Unlock(m), Op::Compute(1)]
    } else if r == 2 {
        let s = (i % 4) as usize;
        seq![Op::SemWait(s), Op::Compute(1), Op::SemSignal(s)]
    } else if r == 3 {
        seq![Op::QueueSend(((i / 8) % 4) as usize, i as u32), Op::Compute(1)]
    } else if r == 4 {
        seq![Op::QueueRecv(((i / 8) % 4) as usize), Op::Compute(1)]
    } else {
        seq![Op::Compute(1), Op::GpioToggle((i % 8) as usize)]
    }
}

/// The weight task `i` of the many-task scenario is given in the load sizing.
pub open spec fn spread_weight(i: int) -> u64 {
    let r = i % 8;
    if r == 0 {
        2
    } else if r == 1 || r == 5 {
        5
    } else if r == 2 {
        3
    } else if r == 3 || r == 4 {
        2
    } else {
        1
    }
}

/// The period of task `i` of `n` in the many-task scenario: twice its weight per
/// task, so the load stays near one half, and at least four.
pub open spec fn spread_period(i: int, n: int) -> u64 {
    let w = spread_weight(i) as int;
    if w * n * 2 > 4 {
        (w * n * 2) as u64
    } else {
        4
    }
}

fn spread_program_exec(i: usize) -> (res: (u64, Vec<Op>))
    ensures
        res.1@ == spread_program(i as int),
        res.0 == spread_weight(i as int),
        budget(res.1@) <= 5,
{
    proof {
        reveal_with_fuel(budget, 6);
    }
    let r = i % 8;
    if r == 0 {
        let p = vec![Op::Compute(2)];
        assert(p@ =~= spread_program(i as int));
        (2, p)
    } else if r == 1 || r == 5 {
        let m = i % 8;
        let p = vec![Op::Compute(1), Op::Lock(m), Op::Compute(2), Op::Unlock(m), Op::Compute(1)];
        assert(spread_program(i as int) == seq![Op::Compute(1), Op::Lock(m), Op::Compute(2), Op::Unlock(m), Op::Compute(1)]);
        assert(p@ =~= spread_program(i as int));
        (5, p)
    } else if r == 2 {
        let s = i % 4;
        let p = vec![Op::SemWait(s), Op::Compute(1), Op::SemSignal(s)];
        assert(spread_program(i as int) == seq![Op::SemWait(s), Op::Compute(1), Op::SemSignal(s)]);
        assert(p@ =~= spread_program(i as int));
        (3, p)
    } else if r == 3 {
        let p = vec![Op::QueueSend((i / 8) % 4, i as u32), Op::Compute(1)];
        assert(p@ =~= spread_program(i as int));
        (2, p)
    } else if r == 4 {
        let p = vec![Op::QueueRecv((i / 8) % 4), Op::Compute(1)];
        assert(p@ =~= spread_program(i as int));
        (2, p)
    } else {
        let p = vec![Op::Compute(1), Op::GpioToggle(i % 8)];
        assert(p@ =~= spread_program(i as int));
        (1, p)
    }
}

/// Many tasks at every priority from 0 to 255 on a stable load: eight mutexes,
/// four semaphores (one unit of sixteen), four queues (capacities one to four),
/// and `n_tasks` periodic tasks each touching one of them.
pub fn build_manytasks(n_tasks: usize, seed: u64) -> (k: Kernel)
    requires
        n_tasks * 37 <= usize::MAX,
        n_tasks * 10 <= u64::MAX,
    ensures
        fresh_run(k@, Config { seed, priority_inheritance: true, ..Config::default_spec() }),
        k@.mutexes == Seq::new(8, |m: int| MutexView::fresh()),
        k@.semaphores == Seq::new(4, |s: int| SemaphoreView::initial(1, 16)),
        k@.queues == Seq::new(4, |q: int| QueueView::initial((1 + q) as usize)),
        k@.tasks.len() == n_tasks,
        forall|i: int|
            0 <= i < n_tasks ==> #[trigger] k@.tasks[i] == staged(
                i as usize,
                "t"@ + decimal(i as nat),
                spread_priority(i, n_tasks as int),
                Some(spread_period(i, n_tasks as int)),
                spread_program(i),
                1,
            ),
{
    let config = base_config(seed, true);
    let mut k = scenario_kernel(config, 8);
    let mut s: usize = 0;
    assert(k@.semaphores =~= Seq::new(0, |x: int| SemaphoreView::initial(1, 16)));
    while s < 4
        invariant
            s <= 4,
            fresh_run(k@, config),
            k@.mutexes == Seq::new(8, |m: int| MutexView::fresh()),
            k@.semaphores == Seq::new(s as nat, |x: int| SemaphoreView::initial(1, 16)),
            k@.queues.len() == 0,
            k@.tasks.len() == 0,
        decreases 4 - s,
    {
        proof {
            k@.lemma_new_semaphore_wf(SemaphoreView::initial(1, 16));
        }
        k.add_semaphore(1, 16);
        assert(k@.semaphores =~= Seq::new((s + 1) as nat, |x: int| SemaphoreView::initial(1, 16)));
        s = s + 1;
    }
    let mut q: usize = 0;
    assert(k@.queues =~= Seq::new(0, |x: int| QueueView::initial((1 + x) as usize)));
    while q < 4
        invariant
            q <= 4,
            fresh_run(k@, config),
            k@.mutexes == Seq::new(8, |m: int| MutexView::fresh()),
            k@.semaphores == Seq::new(4, |x: int| SemaphoreView::initial(1, 16)),
            k@.queues == Seq::new(q as nat, |x: int| QueueView::initial((1 + x) as usize)),
            k@.tasks.len() == 0,
        decreases 4 - q,
    {
        proof {
            k@.lemma_new_queue_wf(QueueView::initial((1 + q) as usize));
        }
        k.add_queue(1 + q);
        assert(k@.queues =~= Seq::new((q + 1) as nat, |x: int| QueueView::initial((1 + x) as usize)));
        q = q + 1;
    }
    let mut i: usize = 0;
    while i < n_tasks
        invariant
            i <= n_tasks,
            n_tasks * 37 <= usize::MAX,
            n_tasks * 10 <= u64::MAX,
            fresh_run(k@, config),
            k@.mutexes == Seq::new(8, |m: int| MutexView::fresh()),
            k@.semaphores == Seq::new(4, |x: int| SemaphoreView::initial(1, 16)),
            k@.queues == Seq::new(4, |x: int| QueueView::initial((1 + x) as usize)),
            k@.tasks.len() == i,
            forall|j: int|
                0 <= j < i ==> #[trigger] k@.tasks[j] == staged(
                    j as usize,
                    "t"@ + decimal(j as nat),
                    spread_priority(j, n_tasks as int),
                    Some(spread_period(j, n_tasks as int)),
                    spread_program(j),
                    1,
                ),
        decreases n_tasks - i,
    {
        let prio: u8 = if i == 0 {
            0
        } else if i == n_tasks - 1 {
            255
        } else {
            ((i * 37) % 254 + 1) as u8
        };
        let (wcet, program) = spread_program_exec(i);
        proof {
            assert(wcet * (n_tasks as u64) * 2 <= 10 * n_tasks) by (nonlinear_arith)
                requires
                    wcet <= 5,
            ;
        }
        let w2 = wcet * (n_tasks as u64) * 2;
        let period = if w2 > 4 {
            w2
        } else {
            4
        };
        let name = indexed_name("t", i);
        stage(&mut k, name.as_str(), prio, Some(period), program, 1);
        i = i + 1;
    }
    k
}

// ----- deadlock -----

/// Two tasks that wait on each other's mutex, and a background task: `deadlock-a`
/// (priority 5) takes mutex 0 then needs mutex 1; `deadlock-b` (priority 9,
/// released at tick 3) takes mutex 1 then needs mutex 0; `background` (priority 1)
/// computes three ticks every twenty.
pub fn build_deadlock() -> (k: Kernel)
    ensures
        k@ == deadlock_start(),
        scenario_base(k@, Config { seed: 7, priority_inheritance: true, ..Config::default_spec() }, 2),
        k@.tasks == seq![
            staged(
                0,
                "deadlock-a"@,
                5,
                None,
                seq![Op::Lock(0), Op::Compute(2), Op::Lock(1), Op::Compute(2), Op::Unlock(1), Op::Unlock(0)],
                1,
            ),
            staged(
                1,
                "deadlock-b"@,
                9,
                None,
                seq![Op::Lock(1), Op::Compute(2), Op::Lock(0), Op::Compute(2), Op::Unlock(0), Op::Unlock(1)],
                3,
            ),
            staged(2, "background"@, 1, Some(20), seq![Op::Compute(3)], 1),
        ],
{
    let config = base_config(7, true);
    let mut k = scenario_kernel(config, 2);
    let m1: usize = 0;
    let m2: usize = 1;
    proof {
        reveal_with_fuel(budget, 7);
    }
    let pa = vec![Op::Lock(m1), Op::Compute(2), Op::Lock(m2), Op::Compute(2), Op::Unlock(m2), Op::Unlock(m1)];
    assert(pa@ =~= seq![Op::Lock(0), Op::Compute(2), Op::Lock(1), Op::Compute(2), Op::Unlock(1), Op::Unlock(0)]);
    stage(&mut k, "deadlock-a", 5, None, pa, 1);
    let pb = vec![Op::Lock(m2), Op::Compute(2), Op::Lock(m1), Op::Compute(2), Op::Unlock(m1), Op::Unlock(m2)];
    assert(pb@ =~= seq![Op::Lock(1), Op::Compute(2), Op::Lock(0), Op::Compute(2), Op::Unlock(0), Op::Unlock(1)]);
    stage(&mut k, "deadlock-b", 9, None, pb, 3);
    let pc = vec![Op::Compute(3)];
    assert(pc@ =~= seq![Op::Compute(3)]);
    stage(&mut k, "background", 1, Some(20), pc, 1);
    assert(k@.tasks =~= seq![
        staged(
            0,
            "deadlock-a"@,
            5,
            None,
            seq![Op::Lock(0), Op::Compute(2), Op::Lock(1), Op::Compute(2), Op::Unlock(1), Op::Unlock(0)],
            1,
        ),
        staged(
            1,
            "deadlock-b"@,
            9,
            None,
            seq![Op::Lock(1), Op::Compute(2), Op::Lock(0), Op::Compute(2), Op::Unlock(0), Op::Unlock(1)],
            3,
        ),
        staged(2, "background"@, 1, Some(20), seq![Op::Compute(3)], 1),
    ]);
    assert(k@.semaphores =~= Seq::<SemaphoreView>::empty());
    assert(k@.queues =~= Seq::<QueueView>::empty());
    assert(k@.log =~= Seq::<Event>::empty());
    assert(k@.records =~= Seq::<TickRecordView>::empty());
    assert(k@ == deadlock_start());
    k
}

/// The configuration of the deadlock scenario.
pub open spec fn deadlock_config() -> Config {
    Config { seed: 7, priority_inheritance: true, ..Config::default_spec() }
}

/// The deadlock scenario before its first tick.
pub open spec fn deadlock_start() -> KernelView {
    KernelView {
        mcu: crate::mcu::McuView::fresh(deadlock_config().ram, deadlock_config().tick_reload),
        tasks: seq![
            staged(
                0,
                "deadlock-a"@,
                5,
                None,
                seq![Op::Lock(0), Op::Compute(2), Op::Lock(1), Op::Compute(2), Op::Unlock(1), Op::Unlock(0)],
                1,
            ),
            staged(
                1,
                "deadlock-b"@,
                9,
                None,
                seq![Op::Lock(1), Op::Compute(2), Op::Lock(0), Op::Compute(2), Op::Unlock(0), Op::Unlock(1)],
                3,
            ),
            staged(2, "background"@, 1, Some(20), seq![Op::Compute(3)], 1),
        ],
        mutexes: Seq::new(2, |i: int| MutexView::fresh()),
        semaphores: Seq::empty(),
        queues: Seq::empty(),
        log: Seq::empty(),
        records: Seq::empty(),
        rng: crate::rng::seeded_state(7),
        config: deadlock_config(),
        now: 0,
        running: None,
        idle_ticks: 0,
        invariant_violations: 0,
    }
}

/// What the deadlock scenario is judged on: the owners of its two mutexes halfway
/// through and at the end, whether each of the two cycling tasks ends waiting on a
/// mutex, how many jobs the background task completed, and the violation count.
#[derive(Debug)]
pub struct DeadlockReport {
    pub mid_owners: (Option<usize>, Option<usize>),
    pub end_owners: (Option<usize>, Option<usize>),
    pub a_waits: bool,
    pub b_waits: bool,
    pub background_jobs: u64,
    pub violations: u64,
}

/// The owner of mutex `m` of `k`, if it exists and is held.
pub open spec fn owner_of(k: KernelView, m: int) -> Option<usize> {
    if 0 <= m < k.mutexes.len() {
        k.mutexes[m].owner
    } else {
        None
    }
}

/// Task `i` of `k` exists and waits on a mutex.
pub open spec fn waits_on_mutex(k: KernelView, i: int) -> bool {
    0 <= i < k.tasks.len() && k.tasks[i].blocked_on matches Some(crate::kernel::BlockReason::Mutex(_))
}

/// The report of the deadlock scenario sampled at `mid` and at `end`.
pub open spec fn report_of(mid: KernelView, end: KernelView) -> DeadlockReport {
    DeadlockReport {
        mid_owners: (owner_of(mid, 0), owner_of(mid, 1)),
        end_owners: (owner_of(end, 0), owner_of(end, 1)),
        a_waits: waits_on_mutex(end, 0),
        b_waits: waits_on_mutex(end, 1),
        background_jobs: if 2 < end.tasks.len() { end.tasks[2].jobs_completed } else { 0 },
        violations: end.invariant_violations,
    }
}

/// The circular wait is contained: it formed by halfway (both mutexes held), both
/// tasks in it still wait at the end on the same owners, and the background task
/// kept completing jobs without any scheduling violation.
pub open spec fn contained(r: DeadlockReport) -> bool {
    &&& r.mid_owners.0 is Some
    &&& r.mid_owners.1 is Some
    &&& r.a_waits
    &&& r.b_waits
    &&& r.end_owners == r.mid_owners
    &&& r.background_jobs > 0
    &&& r.violations == 0
}

/// A run of `a + b` ticks is a run of `a` ticks followed by one of `b`.
proof fn lemma_run_split(k: KernelView, a: nat, b: nat)
    requires
        k.run_fits(a + b),
    ensures
        k.run_fits(a),
        k.run_for(a).run_fits(b),
        k.run_for(a).run_for(b) == k.run_for(a + b),
    decreases a,
{
    if a > 0 {
        lemma_run_split(k.stepped(), (a - 1) as nat, b);
        assert((a + b - 1) as nat == (a - 1) as nat + b);
    }
}

fn owner_at(k: &Kernel, m: usize) -> (o: Option<usize>)
    ensures
        o == owner_of(k@, m as int),
{
    let ms = k.mutex_list();
    if m < ms.len() {
        assert(k@.mutexes[m as int] == ms@[m as int]@);
        ms[m].owner
    } else {
        None
    }
}

fn waits_at(k: &Kernel, i: usize) -> (w: bool)
    ensures
        w == waits_on_mutex(k@, i as int),
{
    let ts = k.task_list();
    if i < ts.len() {
        assert(k@.tasks[i as int] == ts@[i as int]@);
        match ts[i].blocked_on {
            Some(crate::kernel::BlockReason::Mutex(_)) => true,
            _ => false,
        }
    } else {
        false
    }
}

/// Run the deadlock scenario for `ticks` ticks and report on it, sampling the
/// mutex owners halfway.
pub fn deadlock_outcome(ticks: u64) -> (r: DeadlockReport)
    requires
        deadlock_start().run_fits(ticks as nat),
    ensures
        r == report_of(deadlock_start().run_for((ticks / 2) as nat), deadlock_start().run_for(ticks as nat)),
{
    let mut k = build_deadlock();
    let half = ticks / 2;
    proof {
        lemma_run_split(deadlock_start(), half as nat, (ticks - half) as nat);
        assert(half as nat + (ticks - half) as nat == ticks as nat);
    }
    assert(k@.wf());
    k.run(half);
    let mid_owners = (owner_at(&k, 0), owner_at(&k, 1));
    k.run(ticks - half);
    let ts = k.task_list();
    let background_jobs = if 2 < ts.len() {
        assert(k@.tasks[2] == ts@[2]@);
        ts[2].jobs_completed
    } else {
        0
    };
    DeadlockReport {
        mid_owners,
        end_owners: (owner_at(&k, 0), owner_at(&k, 1)),
        a_waits: waits_at(&k, 0),
        b_waits: waits_at(&k, 1),
        background_jobs,
        violations: k.invariant_violations(),
    }
}

/// Whether the deadlock scenario's report shows the circular wait contained.
pub fn deadlock_contained(r: &DeadlockReport) -> (ok: bool)
    ensures
        ok == contained(*r),
{
    r.mid_owners.0.is_some() && r.mid_owners.1.is_some() && r.a_waits && r.b_waits && r.end_owners.0
        == r.mid_owners.0 && r.end_owners.1 == r.mid_owners.1 && r.background_jobs > 0 && r.violations == 0
}

// ----- the folds that check a run -----

/// How long tasks waited for mutexes, read from the event stream: the tick each
/// task blocked on a mutex, the worst wait before a later lock, and, for a watched
/// task (the boss), its worst wait, how often it blocked, and whether it was still
/// waiting at the end.
pub struct BlockingTracker {
    pub blocked_at: Vec<Option<u64>>,
    pub tick: u64,
    pub worst: u64,
    pub boss: Option<usize>,
    pub boss_worst: u64,
    pub boss_blocks: u64,
    pub boss_open: bool,
}

/// The state of a blocking tracker.
pub struct TrackerView {
    pub blocked_at: Seq<Option<u64>>,
    pub tick: u64,
    pub worst: u64,
    pub boss: Option<usize>,
    pub boss_worst: u64,
    pub boss_blocks: u64,
    pub boss_open: bool,
}

impl View for BlockingTracker {
    type V = TrackerView;

    open spec fn view(&self) -> TrackerView {
        TrackerView {
            blocked_at: self.blocked_at@,
            tick: self.tick,
            worst: self.worst,
            boss: self.boss,
            boss_worst: self.boss_worst,
            boss_blocks: self.boss_blocks,
            boss_open: self.boss_open,
        }
    }
}

/// `a - b`, or zero when `b` is larger.
pub open spec fn saturating_diff(a: u64, b: u64) -> u64 {
    if a >= b {
        (a - b) as u64
    } else {
        0
    }
}

/// The tracker after one event: a tick moves its clock, a block on a mutex
/// records when the task blocked (counting the boss's blocks), and a lock by a
/// task that was blocked closes its wait and keeps the worst one.
pub open spec fn after_event(t: TrackerView, e: Event) -> TrackerView {
    match e {
        Event::Tick(now) => TrackerView { tick: now, ..t },
        Event::BlockOnMutex { task, .. } => TrackerView {
            blocked_at: t.blocked_at.update(task as int, Some(t.tick)),
            boss_blocks: if t.boss == Some(task) {
                (t.boss_blocks + 1) as u64
            } else {
                t.boss_blocks
            },
            ..t
        },
        Event::Lock { task, .. } => match t.blocked_at[task as int] {
            Some(start) => {
                let wait = saturating_diff(t.tick, start);
                TrackerView {
                    blocked_at: t.blocked_at.update(task as int, None),
                    worst: if wait > t.worst {
                        wait
                    } else {
                        t.worst
                    },
                    boss_worst: if t.boss == Some(task) && wait > t.boss_worst {
                        wait
                    } else {
                        t.boss_worst
                    },
                    ..t
                }
            },
            None => t,
        },
        _ => t,
    }
}

/// The event names only tasks the tracker has room for, and the boss's block
/// count has room for one more.
pub open spec fn trackable(t: TrackerView, e: Event) -> bool {
    match e {
        Event::BlockOnMutex { task, .. } => task < t.blocked_at.len() && (t.boss == Some(task)
            ==> t.boss_blocks < u64::MAX),
        Event::Lock { task, .. } => task < t.blocked_at.len(),
        _ => true,
    }
}

impl BlockingTracker {
    /// A tracker for `n_tasks` tasks watching `boss`, with nothing seen yet.
    pub fn new(n_tasks: usize, boss: Option<usize>) -> (t: BlockingTracker)
        ensures
            t@ == (TrackerView {
                blocked_at: Seq::new(n_tasks as nat, |i: int| None),
                tick: 0,
                worst: 0,
                boss,
                boss_worst: 0,
                boss_blocks: 0,
                boss_open: false,
            }),
    {
        let mut blocked_at: Vec<Option<u64>> = Vec::new();
        let mut i: usize = 0;
        while i < n_tasks
            invariant
                i <= n_tasks,
                blocked_at@ == Seq::new(i as nat, |j: int| None::<u64>),
            decreases n_tasks - i,
        {
            blocked_at.push(None);
            assert(blocked_at@ =~= Seq::new((i + 1) as nat, |j: int| None::<u64>));
            i = i + 1;
        }
        BlockingTracker { blocked_at, tick: 0, worst: 0, boss, boss_worst: 0, boss_blocks: 0, boss_open: false }
    }

    /// Take one event into account.
    pub fn event(&mut self, ev: &Event)
        requires
            trackable(old(self)@, *ev),
        ensures
            final(self)@ == after_event(old(self)@, *ev),
    {
        match ev {
            Event::Tick(t) => {
                self.tick = *t;
            },
            Event::BlockOnMutex { task, .. } => {
                let task = *task;
                self.blocked_at.set(task, Some(self.tick));
                if self.boss == Some(task) {
                    self.boss_blocks = self.boss_blocks + 1;
                }
            },
            Event::Lock { task, .. } => {
                let task = *task;
                match self.blocked_at[task] {
                    Some(start) => {
                        self.blocked_at.set(task, None);
                        let wait = if self.tick >= start {
                            self.tick - start
                        } else {
                            0
                        };
                        if wait > self.worst {
                            self.worst = wait;
                        }
                        if self.boss == Some(task) && wait > self.boss_worst {
                            self.boss_worst = wait;
                        }
                    },
                    None => {},
                }
            },
            _ => {},
        }
    }

    /// Close the run: record whether the boss was still waiting.
    pub fn finish(&mut self)
        requires
            old(self)@.boss matches Some(b) ==> b < old(self)@.blocked_at.len(),
        ensures
            final(self)@ == (TrackerView {
                boss_open: match old(self)@.boss {
                    Some(b) => old(self)@.blocked_at[b as int] is Some,
                    None => false,
                },
                ..old(self)@
            }),
    {
        self.boss_open = match self.boss {
            Some(b) => self.blocked_at[b].is_some(),
            None => false,
        };
    }
}

/// The tracker after the events `es`, in order; an event it has no room for (one
/// naming a task past its table, or a block of the boss past the counter's
/// limit) is passed over.
pub open spec fn followed(t: TrackerView, es: Seq<Event>) -> TrackerView
    decreases es.len(),
{
    if es.len() == 0 {
        t
    } else {
        let t1 = followed(t, es.drop_last());
        if trackable(t1, es.last()) {
            after_event(t1, es.last())
        } else {
            t1
        }
    }
}

/// The lock storm's gate: with inheritance (`on`) the boss blocked at all and never
/// longer than the critical section plus two ticks of handoff slack; without it
/// (`off`) the boss blocked too, and waited strictly longer (a wait still open at
/// the end counts as unbounded).
pub open spec fn lockstorm_passes(on: TrackerView, off: TrackerView) -> bool {
    &&& on.boss_blocks > 0
    &&& on.boss_worst <= LOCKSTORM_CS + 2
    &&& off.boss_blocks > 0
    &&& (if off.boss_open { u64::MAX } else { off.boss_worst }) > on.boss_worst
}

/// Whether the lock storm's bound and contrast hold over its two runs.
pub fn lockstorm_bounded(on: &BlockingTracker, off: &BlockingTracker) -> (ok: bool)
    ensures
        ok == lockstorm_passes(on@, off@),
{
    let off_effective = if off.boss_open {
        u64::MAX
    } else {
        off.boss_worst
    };
    on.boss_blocks > 0 && on.boss_worst <= LOCKSTORM_CS + 2 && off.boss_blocks > 0 && off_effective > on.boss_worst
}

impl BlockingTracker {
    /// Whether the tracker has room for the event.
    pub fn can_track(&self, ev: &Event) -> (ok: bool)
        ensures
            ok == trackable(self@, *ev),
    {
        match ev {
            Event::BlockOnMutex { task, .. } => *task < self.blocked_at.len() && (self.boss != Some(*task)
                || self.boss_blocks < u64::MAX),
            Event::Lock { task, .. } => *task < self.blocked_at.len(),
            _ => true,
        }
    }

    /// Take the events of `es` from position `from` on into account, in order,
    /// passing over any the tracker has no room for.
    pub fn track_events(&mut self, es: &Vec<Event>, from: usize)
        requires
            from <= es@.len(),
        ensures
            final(self)@ == followed(old(self)@, es@.skip(from as int)),
    {
        let mut i = from;
        while i < es.len()
            invariant
                from <= i <= es@.len(),
                self@ == followed(old(self)@, es@.subrange(from as int, i as int)),
            decreases es.len() - i,
        {
            let ghost before = es@.subrange(from as int, i as int);
            if self.can_track(&es[i]) {
                self.event(&es[i]);
            }
            proof {
                let now = es@.subrange(from as int, i + 1);
                assert(now.drop_last() =~= before);
                assert(now.last() == es@[i as int]);
            }
            i = i + 1;
        }
        assert(es@.subrange(from as int, es@.len() as int) =~= es@.skip(from as int));
    }

    /// Run `k` for `ticks` ticks and take every event the run logs into account.
    pub fn track_run(&mut self, k: &mut Kernel, ticks: u64)
        requires
            old(k)@.wf(),
            old(k)@.run_fits(ticks as nat),
        ensures
            final(k)@ == old(k)@.run_for(ticks as nat),
            final(self)@ == followed(old(self)@, final(k)@.log.skip(old(k)@.log.len() as int)),
    {
        let start = k.event_log().len();
        k.run(ticks);
        proof {
            crate::kernel::accounting::lemma_run_balanced(old(k)@, ticks as nat);
        }
        self.track_events(k.event_log(), start);
    }
}

/// The signals and waits of one semaphore, counted from the event stream.
pub struct HerdFold {
    pub signals: u64,
    pub waits: u64,
    pub sem: usize,
}

impl HerdFold {
    /// Count one event: a signal or a wait of the watched semaphore.
    pub fn event(&mut self, ev: &Event)
        requires
            old(self).signals < u64::MAX,
            old(self).waits < u64::MAX,
        ensures
            final(self).sem == old(self).sem,
            final(self).signals == old(self).signals + crate::kernel::ledger::signals_in(*ev, old(self).sem),
            final(self).waits == old(self).waits + crate::kernel::ledger::takes_in(*ev, old(self).sem),
    {
        match ev {
            Event::SemSignal { sem, .. } => {
                if *sem == self.sem {
                    self.signals = self.signals + 1;
                }
            },
            Event::SemWait { sem, .. } => {
                if *sem == self.sem {
                    self.waits = self.waits + 1;
                }
            },
            _ => {},
        }
    }

    /// Every unit produced was consumed or is still counted in the semaphore, which
    /// holds `count` units.
    pub fn conserved(&self, count: u32) -> (ok: bool)
        ensures
            ok == (self.signals == self.waits + count),
    {
        (self.signals as u128) == (self.waits as u128) + (count as u128)
    }
}

/// Task `t` either runs at its base priority or holds a mutex that someone waits
/// on: a boost is always justified by a waiter.
pub open spec fn boost_justified(k: KernelView, t: TaskView) -> bool {
    t.eff_priority == t.base_priority || exists|j: int|
        0 <= j < t.held_mutexes.len() && #[trigger] k.mutexes[t.held_mutexes[j] as int].waiters.len() > 0
}

/// Whether `t` holds a mutex some task waits on.
fn holds_contested(k: &Kernel, mutexes: &Vec<crate::kernel::Mutex>, t: &crate::kernel::Task) -> (r: bool)
    requires
        view_mutexes(mutexes@) == k@.mutexes,
        forall|j: int| 0 <= j < t@.held_mutexes.len() ==> t@.held_mutexes[j] < k@.mutexes.len(),
    ensures
        r == exists|j: int|
            0 <= j < t@.held_mutexes.len() && #[trigger] k@.mutexes[t@.held_mutexes[j] as int].waiters.len() > 0,
{
    let mut j: usize = 0;
    while j < t.held_mutexes.len()
        invariant
            j <= t.held_mutexes.len(),
            view_mutexes(mutexes@) == k@.mutexes,
            forall|x: int| 0 <= x < t@.held_mutexes.len() ==> t@.held_mutexes[x] < k@.mutexes.len(),
            forall|x: int| 0 <= x < j ==> #[trigger] k@.mutexes[t@.held_mutexes[x] as int].waiters.len() == 0,
        decreases t.held_mutexes.len() - j,
    {
        let m = t.held_mutexes[j];
        assert(k@.mutexes[m as int] == mutexes@[m as int]@);
        if mutexes[m].waiters.len() > 0 {
            assert(k@.mutexes[t@.held_mutexes[j as int] as int].waiters.len() > 0);
            return true;
        }
        j = j + 1;
    }
    false
}

/// The first task that ends boosted without holding a mutex anyone waits on, if
/// any.
pub fn first_unjustified_boost(k: &Kernel) -> (r: Option<usize>)
    requires
        forall|i: int, j: int|
            0 <= i < k@.tasks.len() && 0 <= j < k@.tasks[i].held_mutexes.len() ==> #[trigger] k@.tasks[i].held_mutexes[j]
                < k@.mutexes.len(),
    ensures
        match r {
            Some(i) => i < k@.tasks.len() && !boost_justified(k@, k@.tasks[i as int]) && forall|j: int|
                0 <= j < i ==> boost_justified(k@, #[trigger] k@.tasks[j]),
            None => forall|j: int| 0 <= j < k@.tasks.len() ==> boost_justified(k@, #[trigger] k@.tasks[j]),
        },
{
    let tasks = k.task_list();
    let mutexes = k.mutex_list();
    let mut i: usize = 0;
    while i < tasks.len()
        invariant
            i <= tasks.len(),
            forall|i: int, j: int|
                0 <= i < k@.tasks.len() && 0 <= j < k@.tasks[i].held_mutexes.len() ==> #[trigger] k@.tasks[i].held_mutexes[j]
                    < k@.mutexes.len(),
            view_tasks(tasks@) == k@.tasks,
            view_mutexes(mutexes@) == k@.mutexes,
            forall|j: int| 0 <= j < i ==> boost_justified(k@, #[trigger] k@.tasks[j]),
        decreases tasks.len() - i,
    {
        assert(k@.tasks[i as int] == tasks@[i as int]@);
        if tasks[i].eff_priority != tasks[i].base_priority {
            if !holds_contested(k, mutexes, &tasks[i]) {
                return Some(i);
            }
        }
        i = i + 1;
    }
    None
}

/// The first queue whose counters do not balance (sent values other than the
/// received ones plus those in flight), if any.
pub fn first_unbalanced_queue(k: &Kernel) -> (r: Option<usize>)
    ensures
        match r {
            Some(i) => i < k@.queues.len() && !k@.queues[i as int].conserved() && forall|j: int|
                0 <= j < i ==> (#[trigger] k@.queues[j]).conserved(),
            None => forall|j: int| 0 <= j < k@.queues.len() ==> (#[trigger] k@.queues[j]).conserved(),
        },
{
    let queues = k.queue_list();
    let mut i: usize = 0;
    while i < queues.len()
        invariant
            i <= queues.len(),
            view_queues(queues@) == k@.queues,
            forall|j: int| 0 <= j < i ==> (#[trigger] k@.queues[j]).conserved(),
        decreases queues.len() - i,
    {
        let q = &queues[i];
        assert(k@.queues[i as int] == q@);
        if !q.is_conserved() {
            return Some(i);
        }
        i = i + 1;
    }
    None
}

/// One queue's line of values in flight after event `e`: a send to queue `q`
/// appends its value, a receive from it takes the oldest, if there is one.
pub open spec fn replayed(line: Seq<u32>, e: Event, q: int) -> Seq<u32> {
    match e {
        Event::QueueSend { queue, value, .. } => if queue == q {
            line.push(value)
        } else {
            line
        },
        Event::QueueRecv { queue, .. } => if queue == q && line.len() > 0 {
            line.drop_first()
        } else {
            line
        },
        _ => line,
    }
}

/// Event `e` is no receive, or a receive of the oldest value in flight on its
/// queue.
pub open spec fn in_order(lines: Seq<Seq<u32>>, e: Event) -> bool {
    match e {
        Event::QueueRecv { queue, value, .. } => lines[queue as int].len() > 0 && lines[queue as int][0] == value,
        _ => true,
    }
}

/// The event names a queue that is among the first `n`, if it names one at all.
pub open spec fn queue_within(e: Event, n: int) -> bool {
    match e {
        Event::QueueSend { queue, .. } => queue < n,
        Event::QueueRecv { queue, .. } => queue < n,
        _ => true,
    }
}

/// The values each line holds.
pub open spec fn lines_of(v: Seq<VecDeque<u32>>) -> Seq<Seq<u32>> {
    Seq::new(v.len(), |i: int| v[i]@)
}

/// The values in flight on each queue, replayed from the event stream, and the
/// number of receives that did not deliver the oldest of them.
pub struct QueueFold {
    pub expected: Vec<VecDeque<u32>>,
    pub mismatches: usize,
}

impl QueueFold {
    /// Nothing in flight on any of `queues` queues, and no mismatch.
    pub fn new(queues: usize) -> (f: QueueFold)
        ensures
            lines_of(f.expected@) == Seq::new(queues as nat, |i: int| Seq::<u32>::empty()),
            f.mismatches == 0,
    {
        let mut expected: Vec<VecDeque<u32>> = Vec::new();
        let mut i: usize = 0;
        while i < queues
            invariant
                i <= queues,
                expected@.len() == i,
                forall|j: int| 0 <= j < i ==> (#[trigger] expected@[j])@ == Seq::<u32>::empty(),
            decreases queues - i,
        {
            let line: VecDeque<u32> = VecDeque::new();
            expected.push(line);
            i = i + 1;
        }
        assert(lines_of(expected@) =~= Seq::new(queues as nat, |j: int| Seq::<u32>::empty()));
        QueueFold { expected, mismatches: 0 }
    }

    /// Replay one event: a send appends its value to its queue's line, a receive
    /// takes the oldest value of its line. Returns whether the receive delivered
    /// that oldest value (any other event passes); a mismatch is counted.
    pub fn event(&mut self, ev: &Event) -> (ok: bool)
        requires
            old(self).mismatches < usize::MAX,
            queue_within(*ev, old(self).expected@.len() as int),
        ensures
            ok == in_order(lines_of(old(self).expected@), *ev),
            final(self).mismatches == old(self).mismatches + if ok { 0int } else { 1int },
            lines_of(final(self).expected@) == Seq::new(
                old(self).expected@.len(),
                |q: int| replayed(lines_of(old(self).expected@)[q], *ev, q),
            ),
    {
        let ghost before = lines_of(self.expected@);
        match ev {
            Event::QueueSend { queue, value, .. } => {
                let q = *queue;
                let mut line = self.expected.remove(q);
                line.push_back(*value);
                self.expected.insert(q, line);
                assert(lines_of(self.expected@) =~= Seq::new(
                    before.len(),
                    |j: int| replayed(before[j], *ev, j),
                ));
                true
            },
            Event::QueueRecv { queue, value, .. } => {
                let q = *queue;
                let mut line = self.expected.remove(q);
                let ok = match line.pop_front() {
                    Some(front) => front == *value,
                    None => false,
                };
                self.expected.insert(q, line);
                assert(lines_of(self.expected@) =~= Seq::new(
                    before.len(),
                    |j: int| replayed(before[j], *ev, j),
                ));
                if !ok {
                    self.mismatches = self.mismatches + 1;
                }
                ok
            },
            _ => {
                assert(lines_of(self.expected@) =~= Seq::new(
                    before.len(),
                    |j: int| replayed(before[j], *ev, j),
                ));
                true
            },
        }
    }
}

/// The task a record says ran is in its ready snapshot, and the first entry for it
/// carries the snapshot's highest effective priority; an idle tick passes.
pub open spec fn record_consistent(r: TickRecordView) -> bool {
    match r.ran {
        None => true,
        Some(ran) => exists|j: int|
            0 <= j < r.ready.len() && (#[trigger] r.ready[j]).id == ran && r.ready[j].eff == max_eff(r.ready)
                && forall|k: int| 0 <= k < j ==> (#[trigger] r.ready[k]).id != ran,
    }
}

/// The highest effective priority in a ready snapshot (zero when it is empty).
fn top_priority(ready: &Vec<ReadyEntry>) -> (m: u8)
    ensures
        m == max_eff(ready@),
{
    let mut m: u8 = 0;
    let mut i: usize = 0;
    while i < ready.len()
        invariant
            i <= ready.len(),
            m == max_eff(ready@.take(i as int)),
        decreases ready.len() - i,
    {
        proof {
            assert(ready@.take(i + 1).drop_last() =~= ready@.take(i as int));
        }
        if ready[i].eff > m {
            m = ready[i].eff;
        }
        i = i + 1;
    }
    assert(ready@.take(ready.len() as int) =~= ready@);
    m
}

/// Whether the record is consistent: replayed from the snapshot alone, without the
/// scheduler's own decision.
fn check_record(r: &TickRecord) -> (ok: bool)
    ensures
        ok == record_consistent(r@),
{
    match r.ran {
        None => true,
        Some(ran) => {
            let top = top_priority(&r.ready);
            let mut j: usize = 0;
            while j < r.ready.len()
                invariant
                    j <= r.ready.len(),
                    r.ran == Some(ran),
                    top == max_eff(r.ready@),
                    forall|k: int| 0 <= k < j ==> (#[trigger] r.ready@[k]).id != ran,
                decreases r.ready.len() - j,
            {
                if r.ready[j].id == ran {
                    proof {
                        let rv = r@;
                        assert(rv.ready == r.ready@);
                        assert(rv.ran == Some(ran));
                        if r.ready[j as int].eff == top {
                            assert(rv.ready[j as int].id == ran && rv.ready[j as int].eff == max_eff(rv.ready) && forall|k: int|
                                0 <= k < j ==> (#[trigger] rv.ready[k]).id != ran);
                            assert(record_consistent(rv));
                        } else {
                            assert forall|x: int|
                                0 <= x < r.ready@.len() && (#[trigger] r.ready@[x]).id == ran && forall|k: int|
                                    0 <= k < x ==> (#[trigger] r.ready@[k]).id != ran implies r.ready@[x].eff != max_eff(
                                r.ready@,
                            ) by {
                                if x > j {
                                    assert(r.ready@[j as int].id == ran);
                                }
                            }
                        }
                    }
                    return r.ready[j].eff == top;
                }
                j = j + 1;
            }
            false
        },
    }
}

/// The first record that is not consistent, if any.
pub fn first_inconsistent_record(records: &Vec<TickRecord>) -> (r: Option<usize>)
    ensures
        match r {
            Some(i) => i < records@.len() && !record_consistent(records@[i as int]@) && forall|j: int|
                0 <= j < i ==> record_consistent(#[trigger] records@[j]@),
            None => forall|j: int| 0 <= j < records@.len() ==> record_consistent(#[trigger] records@[j]@),
        },
{
    let mut i: usize = 0;
    while i < records.len()
        invariant
            i <= records.len(),
            forall|j: int| 0 <= j < i ==> record_consistent(#[trigger] records@[j]@),
        decreases records.len() - i,
    {
        if !check_record(&records[i]) {
            return Some(i);
        }
        i = i + 1;
    }
    None
}

} // verus!
