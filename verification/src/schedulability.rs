//! Exact response-time analysis for preemptive fixed-priority scheduling of
//! independent periodic tasks with implicit deadlines.
//!
//! The worst-case response time of a task is the least `R >= C` with
//! `R = C + sum_j ceil(R / T_j) * C_j` over the higher-priority tasks `j`. For a
//! synchronous set (every task released together at the critical instant, which
//! is what the simulator does) the task meets every deadline exactly when that
//! `R` exists within its deadline. The utilization-bound half of the analysis
//! works on floating point and lives with the program around the library.
use vstd::prelude::*;
use crate::kernel::{Task, TaskView};

verus! {

/// `ceil(r / t)` for a positive `t`.
pub open spec fn ceil_div(r: int, t: int) -> int {
    r / t + if r % t == 0 {
        0int
    } else {
        1int
    }
}

/// The CPU time the higher-priority tasks `hp`, each given as `(period, wcet)`,
/// demand in a window of `r` ticks that starts at their common release.
pub open spec fn interference(r: int, hp: Seq<(u64, u64)>) -> int
    decreases hp.len(),
{
    if hp.len() == 0 {
        0
    } else {
        interference(r, hp.drop_last()) + ceil_div(r, hp.last().0 as int) * hp.last().1
    }
}

/// The work that must be done within `r` ticks for a task of `wcet` to finish.
pub open spec fn demand(wcet: u64, r: int, hp: Seq<(u64, u64)>) -> int {
    wcet + interference(r, hp)
}

/// Every period in `hp` is positive.
pub open spec fn periods_positive(hp: Seq<(u64, u64)>) -> bool {
    forall|j: int| 0 <= j < hp.len() ==> #[trigger] hp[j].0 > 0
}

/// `x` is the worst-case response time: the least window of at least `wcet` ticks
/// that holds all the demand on it, and it is within `deadline`.
pub open spec fn is_least_response(wcet: u64, deadline: u64, hp: Seq<(u64, u64)>, x: int) -> bool {
    &&& wcet <= x <= deadline
    &&& demand(wcet, x, hp) == x
    &&& forall|y: int| wcet <= y < x ==> demand(wcet, y, hp) != y
}

/// The worst-case response time of a task within its deadline, if there is one.
pub open spec fn response_spec(wcet: u64, deadline: u64, hp: Seq<(u64, u64)>) -> Option<u64> {
    if exists|x: int| is_least_response(wcet, deadline, hp, x) {
        Some((choose|x: int| is_least_response(wcet, deadline, hp, x)) as u64)
    } else {
        None
    }
}

proof fn lemma_ceil_div_mono(x: int, y: int, t: int)
    requires
        0 <= x <= y,
        0 < t,
    ensures
        ceil_div(x, t) <= ceil_div(y, t),
        0 <= ceil_div(x, t),
{
    vstd::arithmetic::div_mod::lemma_div_is_ordered(x, y, t);
    vstd::arithmetic::div_mod::lemma_div_pos_is_pos(x, t);
    vstd::arithmetic::div_mod::lemma_fundamental_div_mod(x, t);
    vstd::arithmetic::div_mod::lemma_fundamental_div_mod(y, t);
    vstd::arithmetic::div_mod::lemma_mod_bound(x, t);
    vstd::arithmetic::div_mod::lemma_mod_bound(y, t);
    if x / t == y / t && x % t != 0 {
        assert(y % t != 0);
    }
}

/// The demand of the higher-priority tasks never shrinks as the window grows.
proof fn lemma_interference_mono(x: int, y: int, hp: Seq<(u64, u64)>)
    requires
        0 <= x <= y,
        periods_positive(hp),
    ensures
        0 <= interference(x, hp) <= interference(y, hp),
    decreases hp.len(),
{
    if hp.len() > 0 {
        let (t, c) = hp.last();
        assert(hp.last() == hp[hp.len() - 1]);
        assert(periods_positive(hp.drop_last())) by {
            assert forall|j: int| 0 <= j < hp.drop_last().len() implies #[trigger] hp.drop_last()[j].0 > 0 by {
                assert(hp.drop_last()[j] == hp[j]);
            }
        }
        lemma_interference_mono(x, y, hp.drop_last());
        lemma_ceil_div_mono(x, y, t as int);
        vstd::arithmetic::mul::lemma_mul_inequality(ceil_div(x, t as int), ceil_div(y, t as int), c as int);
        vstd::arithmetic::mul::lemma_mul_nonnegative(ceil_div(x, t as int), c as int);
    }
}

/// The demand of a prefix of the higher-priority tasks is at most that of all of them.
proof fn lemma_interference_prefix(r: int, hp: Seq<(u64, u64)>, j: int)
    requires
        0 <= r,
        0 <= j <= hp.len(),
        periods_positive(hp),
    ensures
        interference(r, hp.take(j)) <= interference(r, hp),
    decreases hp.len() - j,
{
    if j < hp.len() {
        let h1 = hp.take(j + 1);
        assert(h1.drop_last() =~= hp.take(j));
        assert(h1.last() == hp[j]);
        lemma_ceil_div_mono(r, r, hp[j].0 as int);
        vstd::arithmetic::mul::lemma_mul_nonnegative(ceil_div(r, hp[j].0 as int), hp[j].1 as int);
        lemma_interference_prefix(r, hp, j + 1);
    } else {
        assert(hp.take(j) =~= hp);
    }
}

/// The demand on a window of `r` ticks, or `None` when it exceeds `deadline`.
fn capped_demand(wcet: u64, r: u64, hp: &[(u64, u64)], deadline: u64) -> (res: Option<u64>)
    requires
        periods_positive(hp@),
    ensures
        match res {
            Some(n) => n == demand(wcet, r as int, hp@) && n <= deadline,
            None => demand(wcet, r as int, hp@) > deadline,
        },
{
    if wcet > deadline {
        proof {
            lemma_interference_mono(0, r as int, hp@);
        }
        return None;
    }
    let mut sum: u128 = wcet as u128;
    let mut j: usize = 0;
    while j < hp.len()
        invariant
            j <= hp.len(),
            periods_positive(hp@),
            sum == wcet + interference(r as int, hp@.take(j as int)),
            sum <= deadline,
        decreases hp.len() - j,
    {
        let (t, c) = hp[j];
        assert(hp@[j as int].0 > 0);
        proof {
            if r % t != 0 {
                assert(t != 1);
                assert(r / t <= r / 2) by {
                    vstd::arithmetic::div_mod::lemma_div_is_ordered_by_denominator(r as int, 2, t as int);
                }
            }
        }
        let k: u64 = r / t + if r % t == 0 {
            0
        } else {
            1
        };
        proof {
            assert(hp@.take(j + 1).drop_last() =~= hp@.take(j as int));
            assert(hp@.take(j + 1).last() == hp@[j as int]);
            assert(k == ceil_div(r as int, t as int));
            assert((k as u128) * (c as u128) <= 0xffff_ffff_ffff_ffffu128 * 0xffff_ffff_ffff_ffffu128) by (nonlinear_arith)
                requires
                    k <= 0xffff_ffff_ffff_ffffu64,
                    c <= 0xffff_ffff_ffff_ffffu64,
            ;
            assert(0xffff_ffff_ffff_ffffu128 * 0xffff_ffff_ffff_ffffu128 + 0xffff_ffff_ffff_ffffu128 <= u128::MAX)
                by (nonlinear_arith);
        }
        sum = sum + (k as u128) * (c as u128);
        j = j + 1;
        if sum > deadline as u128 {
            proof {
                lemma_interference_prefix(r as int, hp@, j as int);
            }
            return None;
        }
    }
    proof {
        assert(hp@.take(hp@.len() as int) =~= hp@);
    }
    Some(sum as u64)
}

/// Exact worst-case response time of a task with the given WCET and (implicit)
/// deadline, interfered with by the higher-priority tasks in `hp`, each listed as
/// `(period, wcet)`: the least `R >= wcet` with `R = wcet + sum_j ceil(R / T_j) * C_j`,
/// found by iterating from `R = wcet` upward. `None` when no such `R` lies within
/// the deadline.
pub fn response_time(wcet: u64, deadline: u64, hp: &[(u64, u64)]) -> (res: Option<u64>)
    requires
        periods_positive(hp@),
    ensures
        res == response_spec(wcet, deadline, hp@),
        match res {
            Some(r) => is_least_response(wcet, deadline, hp@, r as int),
            None => forall|x: int| wcet <= x <= deadline ==> demand(wcet, x, hp@) != x,
        },
{
    if wcet > deadline {
        return None;
    }
    let mut r: u64 = wcet;
    proof {
        lemma_interference_mono(0, r as int, hp@);
    }
    loop
        invariant
            periods_positive(hp@),
            wcet <= r <= deadline,
            r <= demand(wcet, r as int, hp@),
            forall|x: int| wcet <= x < r ==> demand(wcet, x, hp@) > x,
        decreases deadline - r,
    {
        let next = capped_demand(wcet, r, hp, deadline);
        match next {
            None => {
                proof {
                    assert forall|x: int| wcet <= x <= deadline implies demand(wcet, x, hp@) != x by {
                        if x >= r {
                            lemma_interference_mono(r as int, x, hp@);
                        }
                    }
                    assert(!exists|x: int| is_least_response(wcet, deadline, hp@, x));
                }
                return None;
            },
            Some(n) => {
                if n == r {
                    proof {
                        assert(is_least_response(wcet, deadline, hp@, r as int));
                        assert forall|x: int| is_least_response(wcet, deadline, hp@, x) implies x == r by {
                            if x < r {
                            } else if x > r {
                                assert(demand(wcet, r as int, hp@) != r);
                            }
                        }
                    }
                    return Some(r);
                }
                proof {
                    assert forall|x: int| wcet <= x < n implies demand(wcet, x, hp@) > x by {
                        if x >= r {
                            lemma_interference_mono(r as int, x, hp@);
                        }
                    }
                    lemma_interference_mono(r as int, n as int, hp@);
                }
                r = n;
            },
        }
    }
}

/// `(period, wcet, base priority)` of each periodic task of `ts`, in order.
pub open spec fn periodic(ts: Seq<TaskView>) -> Seq<(u64, u64, u8)>
    decreases ts.len(),
{
    if ts.len() == 0 {
        Seq::empty()
    } else if ts.last().period is Some {
        periodic(ts.drop_last()).push((ts.last().period->Some_0, ts.last().wcet, ts.last().base_priority))
    } else {
        periodic(ts.drop_last())
    }
}

/// `(period, wcet)` of each task of `ps` more urgent than priority `p`, in order.
pub open spec fn higher_priority(ps: Seq<(u64, u64, u8)>, p: u8) -> Seq<(u64, u64)>
    decreases ps.len(),
{
    if ps.len() == 0 {
        Seq::empty()
    } else if ps.last().2 > p {
        higher_priority(ps.drop_last(), p).push((ps.last().0, ps.last().1))
    } else {
        higher_priority(ps.drop_last(), p)
    }
}

/// No periodic task is interfered with by a periodic task of period zero.
pub open spec fn interferers_have_periods(ts: Seq<TaskView>) -> bool {
    let ps = periodic(ts);
    forall|i: int, j: int|
        0 <= i < ps.len() && 0 <= j < ps.len() && #[trigger] ps[j].2 > #[trigger] ps[i].2 ==> ps[j].0 > 0
}

/// The worst-case response time of the `k`-th periodic task of `ts`.
pub open spec fn task_response(ts: Seq<TaskView>, k: int) -> Option<u64> {
    let ps = periodic(ts);
    response_spec(ps[k].1, ps[k].0, higher_priority(ps, ps[k].2))
}

pub open spec fn view_all(ts: Seq<Task>) -> Seq<TaskView> {
    Seq::new(ts.len(), |i: int| ts[i]@)
}

proof fn lemma_higher_priority_periods(ps: Seq<(u64, u64, u8)>, p: u8)
    requires
        forall|j: int| 0 <= j < ps.len() && #[trigger] ps[j].2 > p ==> ps[j].0 > 0,
    ensures
        periods_positive(higher_priority(ps, p)),
    decreases ps.len(),
{
    if ps.len() > 0 {
        assert forall|j: int| 0 <= j < ps.drop_last().len() && #[trigger] ps.drop_last()[j].2 > p implies ps.drop_last()[j].0
            > 0 by {
            assert(ps.drop_last()[j] == ps[j]);
        }
        lemma_higher_priority_periods(ps.drop_last(), p);
        let h = higher_priority(ps, p);
        assert forall|j: int| 0 <= j < h.len() implies #[trigger] h[j].0 > 0 by {
            if ps.last().2 > p && j == h.len() - 1 {
                assert(ps.last() == ps[ps.len() - 1]);
            } else {
                assert(h[j] == higher_priority(ps.drop_last(), p)[j]);
            }
        }
    }
}

/// `(period, wcet, base priority)` of each periodic task of `tasks`, in order.
fn periodic_of(tasks: &[Task]) -> (ps: Vec<(u64, u64, u8)>)
    ensures
        ps@ == periodic(view_all(tasks@)),
{
    let mut ps: Vec<(u64, u64, u8)> = Vec::new();
    let mut i: usize = 0;
    while i < tasks.len()
        invariant
            i <= tasks.len(),
            ps@ == periodic(view_all(tasks@).take(i as int)),
        decreases tasks.len() - i,
    {
        proof {
            assert(view_all(tasks@).take(i + 1).drop_last() =~= view_all(tasks@).take(i as int));
            assert(view_all(tasks@).take(i + 1).last() == tasks@[i as int]@);
        }
        match tasks[i].period {
            Some(p) => {
                ps.push((p, tasks[i].wcet, tasks[i].base_priority));
            },
            None => {},
        }
        i = i + 1;
    }
    proof {
        assert(view_all(tasks@).take(tasks@.len() as int) =~= view_all(tasks@));
    }
    ps
}

/// `(period, wcet)` of each task of `ps` more urgent than priority `p`.
fn higher_priority_of(ps: &Vec<(u64, u64, u8)>, p: u8) -> (hp: Vec<(u64, u64)>)
    ensures
        hp@ == higher_priority(ps@, p),
{
    let mut hp: Vec<(u64, u64)> = Vec::new();
    let mut i: usize = 0;
    while i < ps.len()
        invariant
            i <= ps.len(),
            hp@ == higher_priority(ps@.take(i as int), p),
        decreases ps.len() - i,
    {
        proof {
            assert(ps@.take(i + 1).drop_last() =~= ps@.take(i as int));
            assert(ps@.take(i + 1).last() == ps@[i as int]);
        }
        let (period, wcet, prio) = ps[i];
        if prio > p {
            hp.push((period, wcet));
        }
        i = i + 1;
    }
    proof {
        assert(ps@.take(ps@.len() as int) =~= ps@);
    }
    hp
}

/// The worst-case response time of each periodic task of `tasks`, in order, with
/// deadlines equal to periods and priorities taken from base priorities (a larger
/// number is more urgent); `None` for a task with no response time within its
/// deadline. Tasks with no period are left out.
pub fn response_times(tasks: &[Task]) -> (res: Vec<Option<u64>>)
    requires
        interferers_have_periods(view_all(tasks@)),
    ensures
        res@.len() == periodic(view_all(tasks@)).len(),
        forall|k: int| 0 <= k < res@.len() ==> #[trigger] res@[k] == task_response(view_all(tasks@), k),
{
    let ghost ts = view_all(tasks@);
    let ps = periodic_of(tasks);
    let mut res: Vec<Option<u64>> = Vec::new();
    let mut k: usize = 0;
    while k < ps.len()
        invariant
            k <= ps.len(),
            ps@ == periodic(ts),
            ts == view_all(tasks@),
            interferers_have_periods(ts),
            res@.len() == k,
            forall|j: int| 0 <= j < k ==> #[trigger] res@[j] == task_response(ts, j),
        decreases ps.len() - k,
    {
        let (period, wcet, prio) = ps[k];
        let hp = higher_priority_of(&ps, prio);
        proof {
            assert forall|j: int| 0 <= j < ps@.len() && #[trigger] ps@[j].2 > prio implies ps@[j].0 > 0 by {
                assert(ps@[j].2 > ps@[k as int].2);
            }
            lemma_higher_priority_periods(ps@, prio);
        }
        let r = response_time(wcet, period, &hp);
        res.push(r);
        k = k + 1;
    }
    res
}

/// The verdict of the analysis: every periodic task has a response time within
/// its deadline.
pub fn all_schedulable(response_times: &[Option<u64>]) -> (ok: bool)
    ensures
        ok == forall|k: int| 0 <= k < response_times@.len() ==> (#[trigger] response_times@[k]) is Some,
{
    let mut i: usize = 0;
    while i < response_times.len()
        invariant
            i <= response_times.len(),
            forall|k: int| 0 <= k < i ==> (#[trigger] response_times@[k]) is Some,
        decreases response_times.len() - i,
    {
        if response_times[i].is_none() {
            return false;
        }
        i = i + 1;
    }
    true
}

} // verus!
