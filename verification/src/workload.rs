//! Task-set builders: randomized periodic sets for the correctness gates and
//! hand-built scenarios for the demo and the priority-inheritance contrast.
use vstd::prelude::*;
use vstd::string::StringExecFns;
use crate::kernel::{Config, Event, Kernel, KernelView, MutexView, Op, Task, TaskState, TaskView};
use crate::kernel::task::budget;
use crate::kernel::wellformed::op_valid;
use crate::rng::{advanced, draw, state_after, Rng};
use crate::text::{decimal, push_decimal};
use crate::schedulability::view_all;

verus! {

// ----- the hyperperiod -----

/// The greatest common divisor of `a` and `b`, by Euclid's recursion.
pub open spec fn gcd(a: nat, b: nat) -> nat
    decreases b,
{
    if b == 0 {
        a
    } else {
        gcd(b, a % b)
    }
}

/// The least common multiple of `a` and `b`.
pub open spec fn lcm(a: nat, b: nat) -> nat {
    a / gcd(a, b) * b
}

/// The hyperperiod after folding the periods of `ts` from position `i` on into `h`:
/// the least common multiple of the periods, or `cap` as soon as a running value
/// reaches it.
pub open spec fn hyper_from(ts: Seq<TaskView>, cap: u64, i: int, h: nat) -> nat
    decreases ts.len() - i,
{
    if i >= ts.len() {
        if h == 0 {
            1
        } else {
            h
        }
    } else {
        match ts[i].period {
            Some(p) => {
                let h2 = lcm(h, p as nat);
                if h2 >= cap {
                    cap as nat
                } else {
                    hyper_from(ts, cap, i + 1, h2)
                }
            },
            None => hyper_from(ts, cap, i + 1, h),
        }
    }
}

/// Folding the periods from position `i` on never takes the least common multiple
/// of two zeros.
pub open spec fn hyper_defined(ts: Seq<TaskView>, cap: u64, i: int, h: nat) -> bool
    decreases ts.len() - i,
{
    if i >= ts.len() {
        true
    } else {
        match ts[i].period {
            Some(p) => {
                let h2 = lcm(h, p as nat);
                !(h == 0 && p == 0) && (h2 >= cap || hyper_defined(ts, cap, i + 1, h2))
            },
            None => hyper_defined(ts, cap, i + 1, h),
        }
    }
}

proof fn lemma_gcd_bounds(a: nat, b: nat)
    ensures
        a > 0 || b > 0 ==> gcd(a, b) > 0,
        b > 0 ==> gcd(a, b) <= b,
    decreases b,
{
    if b > 0 {
        lemma_gcd_bounds(b, a % b);
        if a % b > 0 {
            assert(gcd(b, a % b) <= a % b);
        }
    }
}

fn gcd_exec(a: u64, b: u64) -> (g: u64)
    ensures
        g == gcd(a as nat, b as nat),
{
    let mut x = a;
    let mut y = b;
    while y != 0
        invariant
            gcd(x as nat, y as nat) == gcd(a as nat, b as nat),
        decreases y,
    {
        let r = x % y;
        x = y;
        y = r;
    }
    x
}

/// Least common multiple of all task periods, the point after which a periodic
/// schedule repeats. Capped so a pathological set cannot blow up a run.
pub fn hyperperiod(tasks: &[Task], cap: u64) -> (h: u64)
    requires
        hyper_defined(view_all(tasks@), cap, 0, 1),
    ensures
        h == hyper_from(view_all(tasks@), cap, 0, 1),
        cap >= 1 ==> h <= cap,
{
    let ghost ts = view_all(tasks@);
    let mut h: u64 = 1;
    let mut i: usize = 0;
    while i < tasks.len()
        invariant
            i <= tasks.len(),
            ts == view_all(tasks@),
            hyper_defined(ts, cap, i as int, h as nat),
            hyper_from(ts, cap, i as int, h as nat) == hyper_from(ts, cap, 0, 1),
            h == 1 || h < cap,
        decreases tasks.len() - i,
    {
        assert(ts[i as int] == tasks@[i as int]@);
        match tasks[i].period {
            Some(p) => {
                let g = gcd_exec(h, p);
                proof {
                    lemma_gcd_bounds(h as nat, p as nat);
                    if h > 0 {
                        vstd::arithmetic::div_mod::lemma_div_is_ordered_by_denominator(h as int, 1, g as int);
                    }
                }
                let q: u64 = if g == 0 {
                    0
                } else {
                    h / g
                };
                proof {
                    assert((q as u128) * (p as u128) <= 0xffff_ffff_ffff_ffffu128 * 0xffff_ffff_ffff_ffffu128) by (nonlinear_arith)
                        requires
                            q <= 0xffff_ffff_ffff_ffffu64,
                            p <= 0xffff_ffff_ffff_ffffu64,
                    ;
                }
                let l: u128 = (q as u128) * (p as u128);
                if l >= cap as u128 {
                    return cap;
                }
                h = l as u64;
            },
            None => {},
        }
        i = i + 1;
    }
    if h == 0 {
        1
    } else {
        h
    }
}

// ----- random periodic sets -----

/// The periods a random set draws from. Each divides 200, so the utilization of a
/// set drawn from them is a whole number of two-hundredths.
pub open spec fn pool() -> Seq<u64> {
    seq![10u64, 20, 25, 40, 50, 100]
}

fn period_pool() -> (v: Vec<u64>)
    ensures
        v@ == pool(),
{
    let mut v: Vec<u64> = Vec::new();
    v.push(10);
    v.push(20);
    v.push(25);
    v.push(40);
    v.push(50);
    v.push(100);
    assert(v@ =~= pool());
    v
}

/// `n` kept within the two to six tasks a random set has.
pub open spec fn set_size(n: usize) -> int {
    if n < 2 {
        2
    } else if n > 6 {
        6
    } else {
        n as int
    }
}

/// The Liu and Layland bound `n * (2^(1/n) - 1)` for `n` tasks, in two-hundredths
/// and rounded down: a utilization that is a whole number of two-hundredths is
/// within the bound exactly when it is at most this many.
pub open spec fn rm_threshold(n: int) -> int {
    if n <= 1 {
        200
    } else if n == 2 {
        165
    } else if n == 3 {
        155
    } else if n == 4 {
        151
    } else if n == 5 {
        148
    } else {
        146
    }
}

/// The period of each task of `ts`.
pub open spec fn periods_of(ts: Seq<TaskView>) -> Seq<u64> {
    Seq::new(ts.len(), |j: int| ts[j].period->Some_0)
}

/// The number of the first `n` periods of `ps` that are longer than `p`.
pub open spec fn count_longer(ps: Seq<u64>, p: u64, n: int) -> nat
    decreases n,
{
    if n <= 0 {
        0
    } else {
        let here: nat = if ps[n - 1] > p {
            1
        } else {
            0
        };
        count_longer(ps, p, n - 1) + here
    }
}

/// The WCET of each task of `ts`.
pub open spec fn wcets_of(ts: Seq<TaskView>) -> Seq<u64> {
    Seq::new(ts.len(), |j: int| ts[j].wcet)
}

/// The total utilization of the first `n` tasks with periods `ps` and WCETs `cs`,
/// in two-hundredths of the CPU.
pub open spec fn util_200ths(ps: Seq<u64>, cs: Seq<u64>, n: int) -> int
    decreases n,
{
    if n <= 0 {
        0
    } else {
        util_200ths(ps, cs, n - 1) + (cs[n - 1] as int) * (200int / (ps[n - 1] as int))
    }
}

/// The tasks of `ts` are within the rate-monotonic utilization bound for their
/// number.
pub open spec fn within_rm_bound(ts: Seq<TaskView>) -> bool {
    util_200ths(periods_of(ts), wcets_of(ts), ts.len() as int) <= rm_threshold(ts.len() as int)
}

/// Task `i` of a random periodic set: a fresh pure-compute periodic task named
/// `t<i>`, with a period from the pool and a rate-monotonic priority (one more than
/// the number of tasks with a longer period, so the shortest period is the most
/// urgent).
pub open spec fn rm_task(ts: Seq<TaskView>, i: int) -> bool {
    let t = ts[i];
    let prio = (1 + count_longer(periods_of(ts), t.period->Some_0, ts.len() as int)) as u8;
    &&& t.period is Some
    &&& pool().contains(t.period->Some_0)
    &&& t.program == seq![Op::Compute(t.wcet)]
    &&& t.name == seq!['t'] + decimal(i as nat)
    &&& (TaskView { period: None, wcet: 0, program: Seq::empty(), ..t }).is_fresh(i as usize, prio)
}

/// A random periodic set: tasks with distinct periods from the pool, each a
/// pure-compute job with rate-monotonic priority.
pub open spec fn is_rm_set(ts: Seq<TaskView>) -> bool {
    &&& forall|i: int| 0 <= i < ts.len() ==> rm_task(ts, i)
    &&& forall|i: int, j: int| 0 <= i < j < ts.len() ==> ts[i].period != ts[j].period
}

/// Each WCET is at least one and at most `num / den` of the period (or one, for a
/// period shorter than that).
pub open spec fn wcets_within(ts: Seq<TaskView>, num: u64, den: u64) -> bool {
    forall|i: int|
        0 <= i < ts.len() ==> 1 <= #[trigger] ts[i].wcet && (ts[i].wcet == 1 || ts[i].wcet as int <= (num as int)
            * (ts[i].period->Some_0 as int) / (den as int))
}

fn contains_u64(v: &Vec<u64>, x: u64) -> (b: bool)
    ensures
        b == v@.contains(x),
{
    let mut i: usize = 0;
    while i < v.len()
        invariant
            i <= v.len(),
            forall|j: int| 0 <= j < i ==> v@[j] != x,
        decreases v.len() - i,
    {
        if v[i] == x {
            return true;
        }
        i = i + 1;
    }
    false
}

/// The periods gathered by drawing from a generator in `state`, starting from `ps`
/// with `g` draws left: each draw picks a period of the pool, kept if new, until
/// `n` are gathered or the draws run out. Also the generator's state afterwards.
pub open spec fn periods_drawn(state: u64, n: nat, ps: Seq<u64>, g: nat) -> (Seq<u64>, u64)
    decreases g,
{
    if ps.len() >= n || g == 0 {
        (ps, state)
    } else {
        let p = pool()[(draw(state) % 6) as int];
        periods_drawn(advanced(state), n, if ps.contains(p) { ps } else { ps.push(p) }, (g - 1) as nat)
    }
}

/// Up to `n` distinct periods drawn from the pool, giving up after a thousand draws.
fn distinct_periods(rng: &mut Rng, n: usize) -> (ps: Vec<u64>)
    ensures
        (ps@, final(rng)@) == periods_drawn(old(rng)@, n as nat, Seq::empty(), 1000),
        ps@.len() <= n,
        ps@.no_duplicates(),
        forall|i: int| 0 <= i < ps@.len() ==> pool().contains(#[trigger] ps@[i]),
{
    let choices = period_pool();
    let mut ps: Vec<u64> = Vec::new();
    let mut guard: u32 = 0;
    let ghost goal = periods_drawn(rng@, n as nat, Seq::empty(), 1000);
    while ps.len() < n && guard < 1000
        invariant
            choices@ == pool(),
            guard <= 1000,
            ps@.len() <= n,
            ps@.no_duplicates(),
            forall|i: int| 0 <= i < ps@.len() ==> pool().contains(#[trigger] ps@[i]),
            periods_drawn(rng@, n as nat, ps@, (1000 - guard) as nat) == goal,
        decreases 1000 - guard,
    {
        let ghost before = rng@;
        let ghost gathered = ps@;
        let p = *rng.pick(choices.as_slice());
        proof {
            let k = (draw(before) % 6) as int;
            assert(p == pool()[k]);
        }
        if !contains_u64(&ps, p) {
            ps.push(p);
            assert(ps@ == gathered.push(p));
        }
        guard = guard + 1;
    }
    ps
}

/// The WCET drawn for period `p` from the draw `d`: one plus `d` modulo the larger
/// of one and `num / 3` of the period.
pub open spec fn wcet_drawn(d: u64, p: u64, num: u64) -> u64 {
    let third = (num * p / 3) as u64;
    let hi: u64 = if third > 1 { third } else { 1 };
    (1 + d % hi) as u64
}

/// The WCETs drawn for the periods `ps`, in order, from a generator in `state`.
pub open spec fn wcets_drawn(state: u64, ps: Seq<u64>, num: u64) -> Seq<u64> {
    Seq::new(ps.len(), |i: int| wcet_drawn(draw(state_after(state, i as nat)), ps[i], num))
}

proof fn lemma_count_longer_le(ps: Seq<u64>, p: u64, n: int)
    requires
        0 <= n <= ps.len(),
    ensures
        count_longer(ps, p, n) <= n,
    decreases n,
{
    if n > 0 {
        lemma_count_longer_le(ps, p, n - 1);
    }
}

/// The rate-monotonic priority of each period: one more than the number of longer
/// periods.
fn rm_priorities(periods: &Vec<u64>) -> (prio: Vec<u8>)
    requires
        periods@.len() < 255,
    ensures
        prio@.len() == periods@.len(),
        forall|i: int| 0 <= i < prio@.len() ==> #[trigger] prio@[i] == 1 + count_longer(periods@, periods@[i], periods@.len() as int),
{
    let mut prio: Vec<u8> = Vec::new();
    let mut i: usize = 0;
    while i < periods.len()
        invariant
            i <= periods.len(),
            periods@.len() < 255,
            prio@.len() == i,
            forall|k: int| 0 <= k < i ==> #[trigger] prio@[k] == 1 + count_longer(periods@, periods@[k], periods@.len() as int),
        decreases periods.len() - i,
    {
        let mut c: u8 = 0;
        let mut j: usize = 0;
        while j < periods.len()
            invariant
                j <= periods.len(),
                i < periods.len(),
                periods@.len() < 255,
                c == count_longer(periods@, periods@[i as int], j as int),
            decreases periods.len() - j,
        {
            proof {
                lemma_count_longer_le(periods@, periods@[i as int], j as int);
            }
            if periods[j] > periods[i] {
                c = c + 1;
            }
            j = j + 1;
        }
        proof {
            lemma_count_longer_le(periods@, periods@[i as int], periods@.len() as int);
        }
        prio.push(c + 1);
        i = i + 1;
    }
    prio
}

/// The name `t<i>`.
pub(crate) fn indexed_name(prefix: &str, i: usize) -> (s: String)
    ensures
        s@ == prefix@ + decimal(i as nat),
{
    let mut s = String::from_str(prefix);
    push_decimal(&mut s, i as u64);
    s
}

/// The periodic set with the given periods and WCETs: task `i` is `t<i>`, a
/// pure-compute job of `wcets[i]` every `periods[i]` ticks, at its rate-monotonic
/// priority.
fn build_set(periods: &Vec<u64>, wcets: &Vec<u64>) -> (ts: Vec<Task>)
    requires
        periods@.len() == wcets@.len(),
        periods@.len() < 255,
        periods@.no_duplicates(),
        forall|i: int| 0 <= i < periods@.len() ==> pool().contains(#[trigger] periods@[i]),
    ensures
        is_rm_set(view_all(ts@)),
        ts@.len() == periods@.len(),
        periods_of(view_all(ts@)) == periods@,
        forall|i: int| 0 <= i < ts@.len() ==> (#[trigger] ts@[i]).wcet == wcets@[i],
{
    let prio = rm_priorities(periods);
    let mut ts: Vec<Task> = Vec::new();
    let mut i: usize = 0;
    proof {
        reveal_strlit("t");
    }
    while i < periods.len()
        invariant
            i <= periods.len(),
            periods@.len() == wcets@.len(),
            periods@.len() < 255,
            prio@.len() == periods@.len(),
            forall|k: int| 0 <= k < prio@.len() ==> #[trigger] prio@[k] == 1 + count_longer(periods@, periods@[k], periods@.len() as int),
            "t"@ == seq!['t'],
            ts@.len() == i,
            forall|k: int|
                0 <= k < i ==> {
                    let t = (#[trigger] ts@[k])@;
                    &&& t.period == Some(periods@[k])
                    &&& t.wcet == wcets@[k]
                    &&& t.program == seq![Op::Compute(t.wcet)]
                    &&& t.name == seq!['t'] + decimal(k as nat)
                    &&& (TaskView { period: None, wcet: 0, program: Seq::empty(), ..t }).is_fresh(k as usize, prio@[k])
                },
        decreases periods.len() - i,
    {
        let mut program: Vec<Op> = Vec::new();
        program.push(Op::Compute(wcets[i]));
        proof {
            assert(program@ =~= seq![Op::Compute(wcets@[i as int])]);
            reveal_with_fuel(crate::kernel::task::budget, 2);
            assert(program@.drop_last() =~= Seq::<Op>::empty());
        }
        let mut t = Task::new(i, "", prio[i]).periodic(periods[i], program);
        t.name = indexed_name("t", i);
        ts.push(t);
        i = i + 1;
    }
    proof {
        let v = view_all(ts@);
        assert(periods_of(v) =~= periods@);
        assert forall|k: int| 0 <= k < v.len() implies rm_task(v, k) by {
            assert(v[k] == ts@[k]@);
        }
        assert forall|a: int, b: int| 0 <= a < b < v.len() implies v[a].period != v[b].period by {
            assert(v[a] == ts@[a]@);
            assert(v[b] == ts@[b]@);
        }
    }
    ts
}

/// A WCET for each period, drawn in order: at least one and at most `num / 3` of
/// the period (or one, for a period shorter than that).
fn draw_wcets(rng: &mut Rng, periods: &Vec<u64>, num: u64) -> (cs: Vec<u64>)
    requires
        num == 1 || num == 2,
        forall|i: int| 0 <= i < periods@.len() ==> pool().contains(#[trigger] periods@[i]),
    ensures
        cs@ == wcets_drawn(old(rng)@, periods@, num),
        final(rng)@ == state_after(old(rng)@, periods@.len()),
        cs@.len() == periods@.len(),
        forall|i: int|
            0 <= i < cs@.len() ==> 1 <= #[trigger] cs@[i] && (cs@[i] == 1 || cs@[i] as int <= (num as int) * (
            periods@[i] as int) / 3),
{
    let ghost s0 = rng@;
    let mut cs: Vec<u64> = Vec::new();
    let mut i: usize = 0;
    while i < periods.len()
        invariant
            i <= periods.len(),
            num == 1 || num == 2,
            forall|i: int| 0 <= i < periods@.len() ==> pool().contains(#[trigger] periods@[i]),
            cs@.len() == i,
            rng@ == state_after(s0, i as nat),
            forall|k: int| 0 <= k < i ==> #[trigger] cs@[k] == wcet_drawn(draw(state_after(s0, k as nat)), periods@[k], num),
            forall|k: int|
                0 <= k < i ==> 1 <= #[trigger] cs@[k] && (cs@[k] == 1 || cs@[k] as int <= (num as int) * (
                periods@[k] as int) / 3),
        decreases periods.len() - i,
    {
        let p = periods[i];
        assert(pool().contains(p));
        assert(p <= 100);
        let third = num * p / 3;
        let hi = if third > 1 {
            third
        } else {
            1
        };
        let c = rng.range(1, hi);
        cs.push(c);
        i = i + 1;
    }
    assert(cs@ =~= wcets_drawn(s0, periods@, num));
    cs
}

/// Whether the set with these periods and WCETs is within the rate-monotonic
/// utilization bound for its size.
fn within_bound(periods: &Vec<u64>, wcets: &Vec<u64>) -> (ok: bool)
    requires
        periods@.len() == wcets@.len(),
        periods@.len() <= 6,
        forall|i: int| 0 <= i < periods@.len() ==> pool().contains(#[trigger] periods@[i]),
        forall|i: int| 0 <= i < wcets@.len() ==> #[trigger] wcets@[i] <= 100,
    ensures
        ok == (util_200ths(periods@, wcets@, periods@.len() as int) <= rm_threshold(periods@.len() as int)),
{
    let mut total: u64 = 0;
    let mut i: usize = 0;
    while i < periods.len()
        invariant
            i <= periods.len(),
            periods@.len() == wcets@.len(),
            periods@.len() <= 6,
            forall|i: int| 0 <= i < periods@.len() ==> pool().contains(#[trigger] periods@[i]),
            forall|i: int| 0 <= i < wcets@.len() ==> #[trigger] wcets@[i] <= 100,
            total == util_200ths(periods@, wcets@, i as int),
            total <= 2000 * i,
        decreases periods.len() - i,
    {
        let p = periods[i];
        assert(pool().contains(p));
        assert(p >= 10);
        let share = 200 / p;
        assert(share <= 20) by {
            vstd::arithmetic::div_mod::lemma_div_is_ordered_by_denominator(200, 10, p as int);
        }
        assert(wcets[i as int] * share <= 2000) by (nonlinear_arith)
            requires
                wcets[i as int] <= 100,
                share <= 20,
        ;
        total = total + wcets[i] * share;
        i = i + 1;
    }
    let n = periods.len();
    let threshold: u64 = if n <= 1 {
        200
    } else if n == 2 {
        165
    } else if n == 3 {
        155
    } else if n == 4 {
        151
    } else if n == 5 {
        148
    } else {
        146
    };
    total <= threshold
}

/// The gentlest set of `m` tasks is within the rate-monotonic bound.
#[verifier::spinoff_prover]
proof fn lemma_gentlest_util(ps: Seq<u64>, cs: Seq<u64>, m: int)
    requires
        2 <= m <= 6,
        ps == pool().take(m),
        cs == Seq::new(m as nat, |k: int| 1u64),
    ensures
        util_200ths(ps, cs, m) <= rm_threshold(m),
{
    let shares = seq![20int, 10, 8, 5, 4, 2];
    assert forall|k: int| 0 <= k < m implies (cs[k] as int) * (200int / (ps[k] as int)) == #[trigger] shares[k] by {
        let c = cs[k] as int;
        let p = ps[k] as int;
        assert(c == 1);
        assert(p == pool()[k]);
        if k == 0 {
            assert(c * (200int / p) == 20) by (nonlinear_arith) requires c == 1, p == 10;
        } else if k == 1 {
            assert(c * (200int / p) == 10) by (nonlinear_arith) requires c == 1, p == 20;
        } else if k == 2 {
            assert(c * (200int / p) == 8) by (nonlinear_arith) requires c == 1, p == 25;
        } else if k == 3 {
            assert(c * (200int / p) == 5) by (nonlinear_arith) requires c == 1, p == 40;
        } else if k == 4 {
            assert(c * (200int / p) == 4) by (nonlinear_arith) requires c == 1, p == 50;
        } else {
            assert(c * (200int / p) == 2) by (nonlinear_arith) requires c == 1, p == 100;
        }
    }
    assert(util_200ths(ps, cs, 0) == 0);
    assert(util_200ths(ps, cs, 1) == 20) by { assert(shares[0] == 20); }
    assert(util_200ths(ps, cs, 2) == 30) by { assert(shares[1] == 10); }
    if m > 2 {
        assert(util_200ths(ps, cs, 3) == 38) by { assert(shares[2] == 8); }
    }
    if m > 3 {
        assert(util_200ths(ps, cs, 4) == 43) by { assert(shares[3] == 5); }
    }
    if m > 4 {
        assert(util_200ths(ps, cs, 5) == 47) by { assert(shares[4] == 4); }
    }
    if m > 5 {
        assert(util_200ths(ps, cs, 6) == 49) by { assert(shares[5] == 2); }
    }
}

/// The least demanding set of `m` tasks: the `m` shortest periods, each with a
/// one-tick job.
fn gentlest_set(m: usize) -> (ts: Vec<Task>)
    requires
        2 <= m <= 6,
    ensures
        ts@.len() == m,
        is_rm_set(view_all(ts@)),
        wcets_within(view_all(ts@), 1, 3),
        within_rm_bound(view_all(ts@)),
        periods_of(view_all(ts@)) == pool().take(m as int),
        wcets_of(view_all(ts@)) == Seq::new(m as nat, |k: int| 1u64),
{
    let choices = period_pool();
    let mut periods: Vec<u64> = Vec::new();
    let mut wcets: Vec<u64> = Vec::new();
    let mut i: usize = 0;
    while i < m
        invariant
            i <= m <= 6,
            choices@ == pool(),
            periods@ == pool().take(i as int),
            wcets@ == Seq::new(i as nat, |k: int| 1u64),
        decreases m - i,
    {
        periods.push(choices[i]);
        wcets.push(1);
        proof {
            assert(periods@ =~= pool().take((i + 1) as int));
            assert(wcets@ =~= Seq::new((i + 1) as nat, |k: int| 1u64));
        }
        i = i + 1;
    }
    proof {
        assert(periods@.no_duplicates());
        assert forall|k: int| 0 <= k < periods@.len() implies pool().contains(#[trigger] periods@[k]) by {
            assert(periods@[k] == pool()[k]);
        }
        lemma_gentlest_util(periods@, wcets@, m as int);
        assert(util_200ths(periods@, wcets@, m as int) <= rm_threshold(m as int));
    }
    let ts = build_set(&periods, &wcets);
    proof {
        let v = view_all(ts@);
        assert(wcets_of(v) =~= wcets@);
        assert forall|k: int| 0 <= k < v.len() implies 1 <= #[trigger] v[k].wcet && (v[k].wcet == 1 || v[k].wcet as int
            <= (1int) * (v[k].period->Some_0 as int) / (3int)) by {
            assert(v[k] == ts@[k]@);
        }
    }
    ts
}

/// The first candidate of `m` periods and their WCETs drawn from a generator in
/// `state` within `tries` candidates, and the generator's state afterwards. A
/// candidate draws its periods, and only when it got `m` distinct ones its WCETs
/// (up to `num / 3` of each period); it is taken unless `bounded` and over the
/// rate-monotonic bound. `None` when every candidate fell through.
#[verifier::opaque]
pub open spec fn candidate_drawn(state: u64, m: nat, num: u64, bounded: bool, tries: nat) -> (Option<
    (Seq<u64>, Seq<u64>),
>, u64)
    decreases tries,
{
    if tries == 0 {
        (None, state)
    } else {
        let (ps, s1) = periods_drawn(state, m, Seq::empty(), 1000);
        if ps.len() == m {
            let cs = wcets_drawn(s1, ps, num);
            let s2 = state_after(s1, m);
            if !bounded || util_200ths(ps, cs, m as int) <= rm_threshold(m as int) {
                (Some((ps, cs)), s2)
            } else {
                candidate_drawn(s2, m, num, bounded, (tries - 1) as nat)
            }
        } else {
            candidate_drawn(s1, m, num, bounded, (tries - 1) as nat)
        }
    }
}

/// `ts` has the periods and WCETs of the candidate `c`, or, when there is none,
/// those of the gentlest set of `m` tasks.
pub open spec fn drawn_as(ts: Seq<TaskView>, c: Option<(Seq<u64>, Seq<u64>)>, m: int) -> bool {
    match c {
        Some((ps, cs)) => periods_of(ts) == ps && wcets_of(ts) == cs,
        None => periods_of(ts) == pool().take(m) && wcets_of(ts) == Seq::new(m as nat, |k: int| 1u64),
    }
}

/// No tries left: no candidate, and the generator untouched.
proof fn lemma_candidate_none(state: u64, m: nat, num: u64, bounded: bool)
    ensures
        candidate_drawn(state, m, num, bounded, 0) == (None::<(Seq<u64>, Seq<u64>)>, state),
{
    reveal(candidate_drawn);
}

/// A candidate that got `m` periods and passes is the one taken.
proof fn lemma_candidate_taken(state: u64, m: nat, num: u64, bounded: bool, tries: nat, s1: u64, ps: Seq<u64>)
    requires
        tries > 0,
        periods_drawn(state, m, Seq::empty(), 1000) == (ps, s1),
        ps.len() == m,
        !bounded || util_200ths(ps, wcets_drawn(s1, ps, num), m as int) <= rm_threshold(m as int),
    ensures
        candidate_drawn(state, m, num, bounded, tries) == (Some((ps, wcets_drawn(s1, ps, num))), state_after(s1, m)),
{
    reveal(candidate_drawn);
}

/// A candidate that passes has the generator's state after its WCETs drawn; one
/// that falls through leaves the rest of the tries to the next.
proof fn lemma_candidate_skipped(state: u64, m: nat, num: u64, bounded: bool, tries: nat, s1: u64, ps: Seq<u64>, s2: u64)
    requires
        tries > 0,
        periods_drawn(state, m, Seq::empty(), 1000) == (ps, s1),
        ps.len() == m ==> bounded && util_200ths(ps, wcets_drawn(s1, ps, num), m as int) > rm_threshold(m as int)
            && s2 == state_after(s1, m),
        ps.len() != m ==> s2 == s1,
    ensures
        candidate_drawn(state, m, num, bounded, tries) == candidate_drawn(s2, m, num, bounded, (tries - 1) as nat),
{
    reveal(candidate_drawn);
}

/// A random periodic set of `n` tasks (kept within two to six) whose total
/// utilization sits within the rate-monotonic bound, with rate-monotonic
/// priorities (shorter period, higher priority). Each job is pure compute, with a
/// WCET of at most a third of its period. Candidate sets are drawn from `rng`
/// until one is within the bound; should `u64::MAX` candidates all fail, the
/// gentlest set of that size is returned.
pub fn random_schedulable_set(rng: &mut Rng, n: usize) -> (ts: Vec<Task>)
    ensures
        ts@.len() == set_size(n),
        is_rm_set(view_all(ts@)),
        wcets_within(view_all(ts@), 1, 3),
        within_rm_bound(view_all(ts@)),
        drawn_as(view_all(ts@), candidate_drawn(old(rng)@, set_size(n) as nat, 1, true, u64::MAX as nat).0, set_size(n)),
        final(rng)@ == candidate_drawn(old(rng)@, set_size(n) as nat, 1, true, u64::MAX as nat).1,
{
    let m: usize = if n < 2 {
        2
    } else if n > 6 {
        6
    } else {
        n
    };
    let ghost goal = candidate_drawn(rng@, m as nat, 1, true, u64::MAX as nat);
    let mut attempts: u64 = 0;
    while attempts < u64::MAX
        invariant
            m == set_size(n),
            2 <= m <= 6,
            candidate_drawn(rng@, m as nat, 1, true, (u64::MAX - attempts) as nat) == goal,
            goal == candidate_drawn(old(rng)@, set_size(n) as nat, 1, true, u64::MAX as nat),
        decreases u64::MAX - attempts,
    {
        let ghost before = rng@;
        let ghost tries = (u64::MAX - attempts) as nat;
        attempts = attempts + 1;
        let periods = distinct_periods(rng, m);
        if periods.len() == m {
            let ghost s1 = rng@;
            let wcets = draw_wcets(rng, &periods, 1);
            proof {
                assert forall|i: int| 0 <= i < wcets@.len() implies #[trigger] wcets@[i] <= 100 by {
                    assert(pool().contains(periods@[i]));
                }
            }
            if within_bound(&periods, &wcets) {
                let ts = build_set(&periods, &wcets);
                proof {
                    let v = view_all(ts@);
                    assert(wcets_of(v) =~= wcets@);
                    assert forall|k: int| 0 <= k < v.len() implies 1 <= #[trigger] v[k].wcet && (v[k].wcet == 1
                        || v[k].wcet as int <= (1int) * (v[k].period->Some_0 as int) / (3int)) by {
                        assert(v[k] == ts@[k]@);
                        assert(periods_of(v)[k] == periods@[k]);
                    }
                    lemma_candidate_taken(before, m as nat, 1, true, tries, s1, periods@);
                    assert(goal == (Some((periods@, wcets@)), rng@));
                    assert(periods_of(v) == periods@);
                    assert(drawn_as(v, goal.0, m as int));
                }
                return ts;
            }
            proof {
                lemma_candidate_skipped(before, m as nat, 1, true, tries, s1, periods@, rng@);
            }
        } else {
            proof {
                lemma_candidate_skipped(before, m as nat, 1, true, tries, rng@, periods@, rng@);
            }
        }
    }
    proof {
        lemma_candidate_none(rng@, m as nat, 1, true);
    }
    gentlest_set(m)
}

/// A random periodic set of `n` tasks (kept within two to six) with distinct
/// periods and rate-monotonic priorities, but WCETs of up to two thirds of the
/// period, so the set may be schedulable or overloaded. Candidates are drawn from
/// `rng` until one has enough distinct periods; should `u64::MAX` draws all fall
/// short, the gentlest set of that size is returned.
pub fn random_rm_set(rng: &mut Rng, n: usize) -> (ts: Vec<Task>)
    ensures
        ts@.len() == set_size(n),
        is_rm_set(view_all(ts@)),
        wcets_within(view_all(ts@), 2, 3),
        drawn_as(view_all(ts@), candidate_drawn(old(rng)@, set_size(n) as nat, 2, false, u64::MAX as nat).0, set_size(n)),
        final(rng)@ == candidate_drawn(old(rng)@, set_size(n) as nat, 2, false, u64::MAX as nat).1,
{
    let m: usize = if n < 2 {
        2
    } else if n > 6 {
        6
    } else {
        n
    };
    let ghost goal = candidate_drawn(rng@, m as nat, 2, false, u64::MAX as nat);
    let mut attempts: u64 = 0;
    while attempts < u64::MAX
        invariant
            m == set_size(n),
            2 <= m <= 6,
            candidate_drawn(rng@, m as nat, 2, false, (u64::MAX - attempts) as nat) == goal,
            goal == candidate_drawn(old(rng)@, set_size(n) as nat, 2, false, u64::MAX as nat),
        decreases u64::MAX - attempts,
    {
        let ghost before = rng@;
        let ghost tries = (u64::MAX - attempts) as nat;
        attempts = attempts + 1;
        let periods = distinct_periods(rng, m);
        let ghost s1 = rng@;
        if periods.len() == m {
            let wcets = draw_wcets(rng, &periods, 2);
            let ts = build_set(&periods, &wcets);
            proof {
                let v = view_all(ts@);
                assert(wcets_of(v) =~= wcets@);
                assert forall|k: int| 0 <= k < v.len() implies 1 <= #[trigger] v[k].wcet && (v[k].wcet == 1
                    || v[k].wcet as int <= (2int) * (v[k].period->Some_0 as int) / (3int)) by {
                    assert(v[k] == ts@[k]@);
                    assert(periods_of(v)[k] == periods@[k]);
                }
                lemma_candidate_taken(before, m as nat, 2, false, tries, s1, periods@);
                assert(goal == (Some((periods@, wcets@)), rng@));
                assert(periods_of(v) == periods@);
                assert(drawn_as(v, goal.0, m as int));
            }
            return ts;
        }
        proof {
            lemma_candidate_skipped(before, m as nat, 2, false, tries, s1, periods@, rng@);
        }
    }
    let ts = gentlest_set(m);
    proof {
        lemma_candidate_none(rng@, m as nat, 2, false);
        let v = view_all(ts@);
        assert forall|k: int| 0 <= k < v.len() implies 1 <= #[trigger] v[k].wcet && (v[k].wcet == 1 || v[k].wcet as int
            <= (2int) * (v[k].period->Some_0 as int) / (3int)) by {
            assert(1 <= v[k].wcet && (v[k].wcet == 1 || v[k].wcet as int <= (1int) * (v[k].period->Some_0 as int) / (3int)));
        }
    }
    ts
}

// ----- hand-built scenarios -----

/// A task as a scenario stages it: freshly built at priority `prio`, with the given
/// name, period and program, suspended until its first release at `release`.
pub open spec fn staged(
    id: usize,
    name: Seq<char>,
    prio: u8,
    period: Option<u64>,
    program: Seq<Op>,
    release: u64,
) -> TaskView {
    TaskView {
        id,
        name,
        base_priority: prio,
        eff_priority: prio,
        period,
        wcet: budget(program) as u64,
        state: TaskState::Suspended,
        program,
        pc: 0,
        compute_remaining: 0,
        next_release: release,
        wake_at: 0,
        deadline: 0,
        job_active: false,
        missed_current: false,
        stack: Seq::new(512, |i: int| 0u8),
        held_mutexes: Seq::empty(),
        blocked_on: None,
        jobs_released: 0,
        jobs_completed: 0,
        deadlines_missed: 0,
        cpu_ticks: 0,
        preemptions: 0,
    }
}

/// A scenario kernel before its first tick: configured by `config`, with `n_mutexes`
/// free mutexes, no semaphore or queue, an empty log and a fresh machine.
pub open spec fn scenario_base(k: KernelView, config: Config, n_mutexes: nat) -> bool {
    &&& k.wf()
    &&& k.config == config
    &&& k.mutexes == Seq::new(n_mutexes, |i: int| MutexView::fresh())
    &&& k.semaphores.len() == 0
    &&& k.queues.len() == 0
    &&& k.log.len() == 0
    &&& k.records.len() == 0
    &&& k.now == 0
    &&& k.running is None
    &&& k.idle_ticks == 0
    &&& k.invariant_violations == 0
    &&& k.rng == crate::rng::seeded_state(config.seed)
    &&& k.mcu == crate::mcu::McuView::fresh(config.ram, config.tick_reload)
}

/// Add the task staged as `staged(id, name, prio, period, program, release)`.
pub(crate) fn stage(k: &mut Kernel, name: &str, prio: u8, period: Option<u64>, program: Vec<Op>, release: u64) -> (id: usize)
    requires
        old(k)@.wf(),
        old(k)@.tasks.len() < usize::MAX,
        program@.len() <= usize::MAX,
        budget(program@) <= u64::MAX,
        forall|j: int|
            0 <= j < program@.len() ==> op_valid(
                #[trigger] program@[j],
                old(k)@.mutexes.len(),
                old(k)@.semaphores.len(),
                old(k)@.queues.len(),
            ),
    ensures
        id == old(k)@.tasks.len(),
        final(k)@ == (KernelView {
            tasks: old(k)@.tasks.push(staged(id, name@, prio, period, program@, release)),
            ..old(k)@
        }),
        final(k)@.wf(),
{
    let ghost prog = program@;
    let base = Task::new(0, name, prio);
    let t = match period {
        Some(p) => base.periodic(p, program),
        None => base.oneshot(program),
    };
    proof {
        old(k)@.lemma_new_task_wf(t@);
    }
    let id = k.add_task(t);
    k.set_next_release(id, release);
    proof {
        assert(k@.tasks[id as int] == staged(id, name@, prio, period, prog, release));
        assert(k@.tasks =~= old(k)@.tasks.push(staged(id, name@, prio, period, prog, release)));
        let kk = old(k)@.with_new_task(t@);
        assert(kk.task_ok(id as int));
        assert forall|x: int| 0 <= x < k@.tasks.len() implies k@.task_ok(x) by {
            assert(kk.task_ok(x));
        }
        assert forall|mm: int| 0 <= mm < k@.mutexes.len() implies k@.mutex_ok(mm) by {
            assert(kk.mutex_ok(mm));
            assert forall|j: int| 0 <= j < k@.mutexes[mm].waiters.len() implies k@.waiter_ok(
                k@.mutexes[mm].waiters[j],
                crate::kernel::BlockReason::Mutex(mm as usize),
            ) by {
                assert(kk.waiter_ok(kk.mutexes[mm].waiters[j], crate::kernel::BlockReason::Mutex(mm as usize)));
            }
        }
        assert forall|ss: int| 0 <= ss < k@.semaphores.len() implies k@.sem_ok(ss) by {
            assert(kk.sem_ok(ss));
        }
        assert forall|qq: int| 0 <= qq < k@.queues.len() implies k@.queue_ok(qq) by {
            assert(kk.queue_ok(qq));
        }
    }
    id
}

/// A new kernel with `n` free mutexes.
pub(crate) fn scenario_kernel(config: Config, n: usize) -> (k: Kernel)
    requires
        n < usize::MAX,
    ensures
        scenario_base(k@, config, n as nat),
        k@.tasks.len() == 0,
{
    let mut k = Kernel::new(config);
    assert(k@.mutexes =~= Seq::new(0, |j: int| MutexView::fresh()));
    let mut i: usize = 0;
    while i < n
        invariant
            i <= n < usize::MAX,
            scenario_base(k@, config, i as nat),
            k@.tasks.len() == 0,
        decreases n - i,
    {
        proof {
            k@.lemma_new_mutex_wf();
        }
        k.add_mutex();
        proof {
            assert(k@.mutexes =~= Seq::new((i + 1) as nat, |j: int| MutexView::fresh()));
        }
        i = i + 1;
    }
    k
}

/// The demo scenario: a blinky LED task, a sensor task that reports on the UART,
/// and two periodic workers sharing mutex 0, at rate-monotonic priorities (the
/// shorter the period, the higher the priority). Worker-a outranks worker-b, so
/// when worker-a waits on the mutex worker-b holds, worker-b is boosted.
pub fn demo(config: Config) -> (k: Kernel)
    ensures
        scenario_base(k@, config, 1),
        k@.tasks.len() == 4,
        k@.tasks[0] == staged(0, "blinky"@, 6, Some(8), k@.tasks[0].program, 1),
        k@.tasks[0].program.len() == 3,
        k@.tasks[0].program[0] == Op::GpioToggle(crate::mcu::LED_PIN),
        k@.tasks[0].program[1] matches Op::Uart(s) && s@ == "blink\n"@,
        k@.tasks[0].program[2] == Op::Compute(1),
        k@.tasks[1] == staged(1, "sensor"@, 5, Some(10), k@.tasks[1].program, 1),
        k@.tasks[1].program.len() == 2,
        k@.tasks[1].program[0] matches Op::Uart(s) && s@ == "sample\n"@,
        k@.tasks[1].program[1] == Op::Compute(1),
        k@.tasks[2] == staged(
            2,
            "worker-a"@,
            4,
            Some(20),
            seq![Op::Compute(1), Op::Lock(0), Op::Compute(3), Op::Unlock(0), Op::Compute(1)],
            1,
        ),
        k@.tasks[3] == staged(
            3,
            "worker-b"@,
            3,
            Some(25),
            seq![Op::Compute(1), Op::Lock(0), Op::Compute(2), Op::Unlock(0)],
            1,
        ),
{
    let mut k = scenario_kernel(config, 1);
    let m: usize = 0;
    proof {
        reveal_with_fuel(budget, 6);
    }
    let blink = vec![Op::GpioToggle(crate::mcu::LED_PIN), Op::Uart(String::from_str("blink\n")), Op::Compute(1)];
    stage(&mut k, "blinky", 6, Some(8), blink, 1);
    let sample = vec![Op::Uart(String::from_str("sample\n")), Op::Compute(1)];
    stage(&mut k, "sensor", 5, Some(10), sample, 1);
    let a = vec![Op::Compute(1), Op::Lock(m), Op::Compute(3), Op::Unlock(m), Op::Compute(1)];
    stage(&mut k, "worker-a", 4, Some(20), a, 1);
    let b = vec![Op::Compute(1), Op::Lock(m), Op::Compute(2), Op::Unlock(m)];
    stage(&mut k, "worker-b", 3, Some(25), b, 1);
    k
}

/// The classic three-task priority-inversion scenario, to show the effect of
/// priority inheritance on and off.
///
/// - `low` (priority 1, released at tick 1) takes mutex 0 and holds it across a
///   long critical section.
/// - `mid` (priority 5, released at tick 3) is pure compute and never touches it.
/// - `high` (priority 9, released at tick 3) needs the same mutex and blocks.
///
/// With inheritance `low` runs at `high`'s priority while it holds the mutex, so
/// `mid` cannot preempt it and `high` waits only for the critical section.
/// Without it `mid` preempts `low` and stretches the wait.
pub fn priority_inversion(config: Config) -> (k: Kernel)
    ensures
        scenario_base(k@, config, 1),
        k@.tasks == seq![
            staged(0, "low"@, 1, None, seq![Op::Lock(0), Op::Compute(6), Op::Unlock(0), Op::Compute(1)], 1),
            staged(1, "mid"@, 5, None, seq![Op::Compute(12)], 3),
            staged(2, "high"@, 9, None, seq![Op::Compute(1), Op::Lock(0), Op::Compute(2), Op::Unlock(0)], 3),
        ],
{
    let mut k = scenario_kernel(config, 1);
    let m: usize = 0;
    proof {
        reveal_with_fuel(budget, 6);
    }
    let p_low = vec![Op::Lock(m), Op::Compute(6), Op::Unlock(m), Op::Compute(1)];
    assert(p_low@ =~= seq![Op::Lock(0), Op::Compute(6), Op::Unlock(0), Op::Compute(1)]);
    stage(&mut k, "low", 1, None, p_low, 1);
    let p_mid = vec![Op::Compute(12)];
    assert(p_mid@ =~= seq![Op::Compute(12)]);
    stage(&mut k, "mid", 5, None, p_mid, 3);
    let p_high = vec![Op::Compute(1), Op::Lock(m), Op::Compute(2), Op::Unlock(m)];
    assert(p_high@ =~= seq![Op::Compute(1), Op::Lock(0), Op::Compute(2), Op::Unlock(0)]);
    stage(&mut k, "high", 9, None, p_high, 3);
    proof {
        assert(k@.tasks =~= seq![
            staged(0, "low"@, 1, None, seq![Op::Lock(0), Op::Compute(6), Op::Unlock(0), Op::Compute(1)], 1),
            staged(1, "mid"@, 5, None, seq![Op::Compute(12)], 3),
            staged(2, "high"@, 9, None, seq![Op::Compute(1), Op::Lock(0), Op::Compute(2), Op::Unlock(0)], 3),
        ]);
    }
    k
}

/// A nested (transitive) priority-inversion scenario, to show that inheritance
/// propagates down a chain of held mutexes.
///
/// - `low` (priority 1, released at tick 1) takes mutex 1 and holds it long.
/// - `midh` (priority 5, released at tick 2) takes mutex 0, then needs mutex 1, so
///   it blocks on `low` while holding mutex 0.
/// - `high` (priority 9, id 2, released at tick 4) needs mutex 0 and blocks on
///   `midh`.
/// - `noise` (priority 6, released at tick 4) is pure compute.
///
/// With inheritance `high`'s block boosts `midh` and, through it, `low` to 9, so
/// `noise` cannot run and `high` waits only for the two nested critical sections.
pub fn nested_inversion(config: Config) -> (k: Kernel)
    ensures
        scenario_base(k@, config, 2),
        k@.tasks == seq![
            staged(0, "low"@, 1, None, seq![Op::Lock(1), Op::Compute(6), Op::Unlock(1)], 1),
            staged(
                1,
                "midh"@,
                5,
                None,
                seq![Op::Lock(0), Op::Compute(1), Op::Lock(1), Op::Compute(2), Op::Unlock(1), Op::Unlock(0)],
                2,
            ),
            staged(2, "high"@, 9, None, seq![Op::Compute(1), Op::Lock(0), Op::Compute(1), Op::Unlock(0)], 4),
            staged(3, "noise"@, 6, None, seq![Op::Compute(10)], 4),
        ],
{
    let mut k = scenario_kernel(config, 2);
    let m1: usize = 0;
    let m2: usize = 1;
    proof {
        reveal_with_fuel(budget, 7);
    }
    let p_low = vec![Op::Lock(m2), Op::Compute(6), Op::Unlock(m2)];
    assert(p_low@ =~= seq![Op::Lock(1), Op::Compute(6), Op::Unlock(1)]);
    stage(&mut k, "low", 1, None, p_low, 1);
    let p_midh = vec![Op::Lock(m1), Op::Compute(1), Op::Lock(m2), Op::Compute(2), Op::Unlock(m2), Op::Unlock(m1)];
    assert(p_midh@ =~= seq![Op::Lock(0), Op::Compute(1), Op::Lock(1), Op::Compute(2), Op::Unlock(1), Op::Unlock(0)]);
    stage(&mut k, "midh", 5, None, p_midh, 2);
    let p_high = vec![Op::Compute(1), Op::Lock(m1), Op::Compute(1), Op::Unlock(m1)];
    assert(p_high@ =~= seq![Op::Compute(1), Op::Lock(0), Op::Compute(1), Op::Unlock(0)]);
    stage(&mut k, "high", 9, None, p_high, 4);
    let p_noise = vec![Op::Compute(10)];
    assert(p_noise@ =~= seq![Op::Compute(10)]);
    stage(&mut k, "noise", 6, None, p_noise, 4);
    proof {
        assert(k@.tasks =~= seq![
            staged(0, "low"@, 1, None, seq![Op::Lock(1), Op::Compute(6), Op::Unlock(1)], 1),
            staged(
                1,
                "midh"@,
                5,
                None,
                seq![Op::Lock(0), Op::Compute(1), Op::Lock(1), Op::Compute(2), Op::Unlock(1), Op::Unlock(0)],
                2,
            ),
            staged(2, "high"@, 9, None, seq![Op::Compute(1), Op::Lock(0), Op::Compute(1), Op::Unlock(0)], 4),
            staged(3, "noise"@, 6, None, seq![Op::Compute(10)], 4),
        ]);
    }
    k
}

/// The program of worker `i` of the contention scenario: every third worker also
/// takes mutex 0.
pub open spec fn worker_program(i: int) -> Seq<Op> {
    if i % 3 == 0 {
        seq![Op::Compute(1), Op::Lock(0), Op::Compute(2), Op::Unlock(0)]
    } else {
        seq![Op::Compute(2)]
    }
}

/// The priority of worker `i` of the contention scenario: equal in blocks of four.
pub open spec fn worker_priority(i: int) -> u8 {
    (3 + (i / 4) % 5) as u8
}

/// `n` kept within the four to forty workers of the contention scenario.
pub open spec fn crowd_size(n: usize) -> int {
    if n < 4 {
        4
    } else if n > 40 {
        40
    } else {
        n as int
    }
}

/// A many-task contention scenario, to check mutual exclusion and the
/// effective-priority scheduling invariant under real contention.
///
/// A low-priority `holder` (id 0) is released alone at tick 1, so it takes mutex 0
/// and enters a long critical section before anything else is ready. At tick 3 the
/// `n` workers (kept within four to forty; mixed priorities, equal in blocks of
/// four, every third also taking the mutex) arrive together with a `top` task of
/// priority 9 that blocks on the holder and triggers inheritance. All tasks share
/// the period `10 * n`, but `top`, which runs twice as often.
pub fn contended_set(config: Config, n: usize) -> (k: Kernel)
    ensures
        scenario_base(k@, config, 1),
        ({
            let m = crowd_size(n);
            let period = (m * 10) as u64;
            &&& k@.tasks.len() == m + 2
            &&& k@.tasks[0] == staged(
                0,
                "holder"@,
                1,
                Some(period),
                seq![Op::Lock(0), Op::Compute(4), Op::Unlock(0), Op::Compute(1)],
                1,
            )
            &&& forall|i: int|
                0 <= i < m ==> #[trigger] k@.tasks[1 + i] == staged(
                    (1 + i) as usize,
                    "w"@ + decimal(i as nat),
                    worker_priority(i),
                    Some(period),
                    worker_program(i),
                    3,
                )
            &&& k@.tasks[m + 1] == staged(
                (m + 1) as usize,
                "top"@,
                9,
                Some((period / 2) as u64),
                seq![Op::Compute(1), Op::Lock(0), Op::Compute(1), Op::Unlock(0)],
                3,
            )
        }),
{
    let m: usize = if n < 4 {
        4
    } else if n > 40 {
        40
    } else {
        n
    };
    let period: u64 = (m as u64) * 10;
    let mut k = scenario_kernel(config, 1);
    let mx: usize = 0;
    proof {
        reveal_with_fuel(budget, 5);
    }
    let p_holder = vec![Op::Lock(mx), Op::Compute(4), Op::Unlock(mx), Op::Compute(1)];
    assert(p_holder@ =~= seq![Op::Lock(0), Op::Compute(4), Op::Unlock(0), Op::Compute(1)]);
    stage(&mut k, "holder", 1, Some(period), p_holder, 1);
    let mut i: usize = 0;
    while i < m
        invariant
            i <= m <= 40,
            m == crowd_size(n),
            period == m * 10,
            mx == 0,
            scenario_base(k@, config, 1),
            k@.tasks.len() == 1 + i,
            k@.tasks[0] == staged(
                0,
                "holder"@,
                1,
                Some(period),
                seq![Op::Lock(0), Op::Compute(4), Op::Unlock(0), Op::Compute(1)],
                1,
            ),
            forall|j: int|
                0 <= j < i ==> #[trigger] k@.tasks[1 + j] == staged(
                    (1 + j) as usize,
                    "w"@ + decimal(j as nat),
                    worker_priority(j),
                    Some(period),
                    worker_program(j),
                    3,
                ),
        decreases m - i,
    {
        let prio: u8 = 3 + ((i / 4) as u8) % 5;
        let program = if i % 3 == 0 {
            let p = vec![Op::Compute(1), Op::Lock(mx), Op::Compute(2), Op::Unlock(mx)];
            assert(p@ =~= worker_program(i as int));
            p
        } else {
            let p = vec![Op::Compute(2)];
            assert(p@ =~= worker_program(i as int));
            p
        };
        proof {
            reveal_with_fuel(budget, 5);
        }
        let name = indexed_name("w", i);
        stage(&mut k, name.as_str(), prio, Some(period), program, 3);
        i = i + 1;
    }
    let p_top = vec![Op::Compute(1), Op::Lock(mx), Op::Compute(1), Op::Unlock(mx)];
    assert(p_top@ =~= seq![Op::Compute(1), Op::Lock(0), Op::Compute(1), Op::Unlock(0)]);
    stage(&mut k, "top", 9, Some(period / 2), p_top, 3);
    k
}

// ----- measuring inversion -----

/// The ticks of the log's `Tick` events never go down.
pub open spec fn ticks_ordered(log: Seq<Event>) -> bool {
    forall|i: int, j: int|
        0 <= i < j < log.len() && (#[trigger] log[i]) is Tick && (#[trigger] log[j]) is Tick ==> log[i]->Tick_0
            <= log[j]->Tick_0
}

/// The wait of task `id` can be measured reading the log from position `i` on, at
/// tick `tick`, with `blocked_at` the tick of a pending block: the first
/// acquisition that closes a block comes at a tick no earlier than the block.
pub open spec fn measurable(log: Seq<Event>, id: usize, i: int, tick: u64, blocked_at: Option<u64>) -> bool
    decreases log.len() - i,
{
    if i >= log.len() {
        true
    } else {
        match log[i] {
            Event::Tick(t) => measurable(log, id, i + 1, t, blocked_at),
            Event::BlockOnMutex { task, .. } => if task == id {
                measurable(log, id, i + 1, tick, Some(tick))
            } else {
                measurable(log, id, i + 1, tick, blocked_at)
            },
            Event::Lock { task, .. } => if task == id && blocked_at is Some {
                blocked_at->Some_0 <= tick
            } else {
                measurable(log, id, i + 1, tick, blocked_at)
            },
            _ => measurable(log, id, i + 1, tick, blocked_at),
        }
    }
}

/// A log whose ticks never go down lets every wait be measured.
pub proof fn lemma_ordered_measurable(log: Seq<Event>, id: usize, i: int, tick: u64, blocked_at: Option<u64>)
    requires
        0 <= i <= log.len(),
        ticks_ordered(log),
        blocked_at matches Some(s) ==> s <= tick,
        forall|j: int| i <= j < log.len() && (#[trigger] log[j]) is Tick ==> tick <= log[j]->Tick_0,
    ensures
        measurable(log, id, i, tick, blocked_at),
    decreases log.len() - i,
{
    if i < log.len() {
        match log[i] {
            Event::Tick(t) => {
                assert forall|j: int| i + 1 <= j < log.len() && (#[trigger] log[j]) is Tick implies t <= log[j]->Tick_0 by {
                    assert(log[i] is Tick);
                }
                lemma_ordered_measurable(log, id, i + 1, t, blocked_at);
            },
            Event::BlockOnMutex { task, .. } => {
                if task == id {
                    lemma_ordered_measurable(log, id, i + 1, tick, Some(tick));
                } else {
                    lemma_ordered_measurable(log, id, i + 1, tick, blocked_at);
                }
            },
            Event::Lock { task, .. } => {
                if !(task == id && blocked_at is Some) {
                    lemma_ordered_measurable(log, id, i + 1, tick, blocked_at);
                }
            },
            _ => {
                lemma_ordered_measurable(log, id, i + 1, tick, blocked_at);
            },
        }
    }
}

/// How long task `id` was blocked, reading the log from position `i` on, at tick
/// `tick`, with `blocked_at` the tick of a block not yet followed by an
/// acquisition.
pub open spec fn blocking_from(log: Seq<Event>, id: usize, i: int, tick: u64, blocked_at: Option<u64>) -> u64
    decreases log.len() - i,
{
    if i >= log.len() {
        if blocked_at is Some {
            u64::MAX
        } else {
            0
        }
    } else {
        match log[i] {
            Event::Tick(t) => blocking_from(log, id, i + 1, t, blocked_at),
            Event::BlockOnMutex { task, .. } => if task == id {
                blocking_from(log, id, i + 1, tick, Some(tick))
            } else {
                blocking_from(log, id, i + 1, tick, blocked_at)
            },
            Event::Lock { task, .. } => if task == id && blocked_at is Some {
                (tick - blocked_at->Some_0) as u64
            } else {
                blocking_from(log, id, i + 1, tick, blocked_at)
            },
            _ => blocking_from(log, id, i + 1, tick, blocked_at),
        }
    }
}

/// How long a task was blocked between the tick it first failed to take a mutex
/// and the tick it acquired it: the ticks from the block to the first lock by the
/// task after it (a later block restarts the count). `u64::MAX` if it blocked and
/// never acquired within the log, `0` if it never blocked. This is the number the
/// inheritance comparisons use.
pub fn blocking_ticks(kernel: &Kernel, task_id: usize) -> (ticks: u64)
    requires
        measurable(kernel@.log, task_id, 0, 0, None),
    ensures
        ticks == blocking_from(kernel@.log, task_id, 0, 0, None),
{
    let log_v = kernel.event_log();
    let ghost log = kernel@.log;
    let mut blocked_at: Option<u64> = None;
    let mut tick: u64 = 0;
    let mut i: usize = 0;
    while i < log_v.len()
        invariant
            i <= log_v.len(),
            log == log_v@,
            log == kernel@.log,
            measurable(log, task_id, i as int, tick, blocked_at),
            blocking_from(log, task_id, i as int, tick, blocked_at) == blocking_from(log, task_id, 0, 0, None),
        decreases log_v.len() - i,
    {
        match &log_v[i] {
            Event::Tick(t) => {
                tick = *t;
            },
            Event::BlockOnMutex { task, .. } => {
                if *task == task_id {
                    blocked_at = Some(tick);
                }
            },
            Event::Lock { task, .. } => {
                if *task == task_id {
                    match blocked_at {
                        Some(start) => {
                            assert(log[i as int] == log_v@[i as int]);
                            assert(blocking_from(log, task_id, i as int, tick, blocked_at) == (tick - start) as u64);
                            return tick - start;
                        },
                        None => {},
                    }
                }
            },
            _ => {},
        }
        i = i + 1;
    }
    match blocked_at {
        Some(_) => u64::MAX,
        None => 0,
    }
}

/// Whether the wait of `task_id` can be measured over the kernel's log.
pub fn wait_measurable(kernel: &Kernel, task_id: usize) -> (ok: bool)
    ensures
        ok == measurable(kernel@.log, task_id, 0, 0, None),
{
    let log_v = kernel.event_log();
    let ghost log = kernel@.log;
    let mut blocked_at: Option<u64> = None;
    let mut tick: u64 = 0;
    let mut i: usize = 0;
    while i < log_v.len()
        invariant
            i <= log_v.len(),
            log == log_v@,
            log == kernel@.log,
            measurable(log, task_id, i as int, tick, blocked_at) == measurable(log, task_id, 0, 0, None),
        decreases log_v.len() - i,
    {
        match &log_v[i] {
            Event::Tick(t) => {
                tick = *t;
            },
            Event::BlockOnMutex { task, .. } => {
                if *task == task_id {
                    blocked_at = Some(tick);
                }
            },
            Event::Lock { task, .. } => {
                if *task == task_id {
                    match blocked_at {
                        Some(start) => {
                            assert(log[i as int] == log_v@[i as int]);
                            assert(measurable(log, task_id, i as int, tick, blocked_at) == (start <= tick));
                            return start <= tick;
                        },
                        None => {},
                    }
                }
            },
            _ => {},
        }
        i = i + 1;
    }
    true
}

/// How long `high` (task 2) was blocked in the inversion scenarios.
pub fn high_blocking_ticks(kernel: &Kernel) -> (ticks: u64)
    requires
        measurable(kernel@.log, 2, 0, 0, None),
    ensures
        ticks == blocking_from(kernel@.log, 2, 0, 0, None),
{
    blocking_ticks(kernel, 2)
}

} // verus!
