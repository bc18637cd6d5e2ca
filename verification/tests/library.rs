use emberchip::schedulability::{all_schedulable, response_time, response_times};
use emberchip::stress::{
    build_deadlock, build_herd, build_lockstorm, build_manytasks, build_queuechurn, deadlock_contained,
    deadlock_outcome, first_inconsistent_record, first_unbalanced_queue, first_unjustified_boost,
    lockstorm_bounded, BlockingTracker, HerdFold, QueueFold,
};
use emberchip::text::{decimal_string, push_decimal_right, push_left, push_right};
use emberchip::{timeline, workload, Config, Event, Kernel, Op, ReadyEntry, Rng, Task, TickRecord};

fn one_task_kernel() -> Kernel {
    let mut k = Kernel::new(Config::default());
    k.add_task(Task::new(0, "a", 1).oneshot(vec![Op::Compute(1)]));
    k
}

#[test]
fn decimal_numerals_and_padding() {
    assert_eq!(decimal_string(0), "0");
    assert_eq!(decimal_string(7), "7");
    assert_eq!(decimal_string(1234), "1234");
    assert_eq!(decimal_string(u64::MAX), "18446744073709551615");
    let mut s = String::new();
    push_decimal_right(&mut s, 42, 5);
    assert_eq!(s, "   42");
    let mut s = String::new();
    push_right(&mut s, "abcdef", 3);
    assert_eq!(s, "abcdef");
    let mut s = String::new();
    push_left(&mut s, "ab", 4);
    assert_eq!(s, "ab  ");
}

#[test]
fn one_tick_timeline_is_exact() {
    let mut k = one_task_kernel();
    k.run(1);
    assert_eq!(
        k.log,
        vec![
            Event::Tick(1),
            Event::Release { task: 0 },
            Event::Run { task: 0 },
            Event::Complete { task: 0 }
        ]
    );
    assert_eq!(
        timeline::render(&k),
        "\ntick    1 |\n         | release a#0\n         | RUN a#0\n         | done a#0\n"
    );
}

#[test]
fn one_tick_summary_is_exact() {
    let mut k = one_task_kernel();
    k.run(1);
    let expected = "\ntask summary\n  id  name        prio  period  wcet  runs  done  missed  cpu\n   0  a              1    once     1     1     1       0     1\n\nticks 1  idle 0  timer irqs 1  uart bytes 0  invariant violations 0  deadline misses 0\n";
    assert_eq!(timeline::summary(&k), expected);
}

#[test]
fn timeline_escapes_uart_newlines_and_names_unknown_tasks() {
    let mut k = Kernel::new(Config::default());
    k.add_task(Task::new(0, "u", 1).oneshot(vec![Op::Uart("x\ny\n".to_string())]));
    k.log.push(Event::Run { task: 9 });
    k.run(1);
    let text = timeline::render(&k);
    assert!(text.contains("\n         | RUN ?#9"));
    assert!(text.contains("\n         | uart<= \"x\\ny\\n\" by u"));
}

#[test]
fn response_time_exact_values() {
    assert_eq!(response_time(4, 10, &[]), Some(4));
    assert_eq!(response_time(3, 10, &[(5, 2)]), Some(5));
    assert_eq!(response_time(6, 10, &[(10, 6)]), None);
    assert_eq!(response_time(11, 10, &[]), None);
    assert_eq!(response_time(1, 20, &[(4, 1), (5, 2)]), Some(4));
}

#[test]
fn response_times_skip_one_shot_tasks() {
    let p = Task::new(0, "p", 2).periodic(10, vec![Op::Compute(3)]);
    let o = Task::new(1, "o", 9).oneshot(vec![Op::Compute(50)]);
    let q = Task::new(2, "q", 1).periodic(20, vec![Op::Compute(4)]);
    let r = response_times(&[p, o, q]);
    assert_eq!(r, vec![Some(3), Some(7)]);
    assert!(all_schedulable(&r));
    assert!(!all_schedulable(&[Some(1), None]));
}

#[test]
fn hyperperiod_exact_values() {
    let a = Task::new(0, "a", 1).periodic(10, vec![Op::Compute(1)]);
    let b = Task::new(1, "b", 1).periodic(25, vec![Op::Compute(1)]);
    let c = Task::new(2, "c", 1).oneshot(vec![Op::Compute(1)]);
    assert_eq!(workload::hyperperiod(&[a.clone(), b.clone(), c.clone()], 1_000), 50);
    assert_eq!(workload::hyperperiod(&[a, b], 40), 40);
    assert_eq!(workload::hyperperiod(&[c], 1_000), 1);
    assert_eq!(workload::hyperperiod(&[], 1_000), 1);
}

#[test]
fn random_sets_have_rate_monotonic_priorities() {
    let mut rng = Rng::new(99);
    for n in [0usize, 2, 4, 6, 9] {
        let tasks = workload::random_rm_set(&mut rng, n);
        assert_eq!(tasks.len(), n.clamp(2, 6));
        for (i, t) in tasks.iter().enumerate() {
            assert_eq!(t.id, i);
            assert_eq!(t.name, format!("t{i}"));
            let p = t.period.unwrap();
            assert!([10, 20, 25, 40, 50, 100].contains(&p));
            assert!(t.wcet >= 1 && (t.wcet == 1 || t.wcet <= 2 * p / 3));
            let longer = tasks.iter().filter(|o| o.period.unwrap() > p).count();
            assert_eq!(t.base_priority as usize, 1 + longer);
        }
    }
}

#[test]
fn scenarios_are_staged_as_described() {
    let k = workload::priority_inversion(Config::default());
    let releases: Vec<u64> = k.tasks.iter().map(|t| t.next_release).collect();
    assert_eq!(releases, vec![1, 3, 3]);
    assert_eq!(k.tasks[2].base_priority, 9);
    let k = workload::contended_set(Config::default(), 1);
    assert_eq!(k.tasks.len(), 6);
    assert_eq!(k.tasks[5].period, Some(20));
    assert_eq!(k.tasks[1].name, "w0");
    let k = workload::demo(Config::default());
    assert_eq!(k.tasks[0].wcet, 1);
    assert_eq!(k.tasks[2].wcet, 5);
}

#[test]
fn blocking_is_measured_from_block_to_lock() {
    let mut k = Kernel::new(Config::default());
    k.log = vec![
        Event::Tick(3),
        Event::BlockOnMutex { task: 2, mutex: 0, owner: 0 },
        Event::Tick(4),
        Event::Tick(7),
        Event::Lock { task: 2, mutex: 0 },
    ];
    assert_eq!(workload::blocking_ticks(&k, 2), 4);
    assert_eq!(workload::blocking_ticks(&k, 1), 0);
    assert!(workload::wait_measurable(&k, 2));
    k.log.truncate(4);
    assert_eq!(workload::high_blocking_ticks(&k), u64::MAX);
    k.log = vec![
        Event::Tick(5),
        Event::BlockOnMutex { task: 2, mutex: 0, owner: 0 },
        Event::Tick(3),
        Event::Lock { task: 2, mutex: 0 },
    ];
    assert!(!workload::wait_measurable(&k, 2));
    assert!(workload::wait_measurable(&k, 1));
}

#[test]
fn inheritance_off_keeps_every_priority() {
    let cfg = Config {
        priority_inheritance: false,
        ..Config::default()
    };
    let mut k = workload::nested_inversion(cfg);
    for _ in 0..80 {
        k.step();
        for t in &k.tasks {
            assert_eq!(t.eff_priority, t.base_priority);
        }
    }
    assert!(!k
        .log
        .iter()
        .any(|e| matches!(e, Event::Inherit { .. } | Event::Restore { .. })));
}

#[test]
fn log_replay_accounts_for_the_queue() {
    let mut k = Kernel::new(Config::default());
    let q = k.add_queue(2);
    k.add_task(Task::new(0, "p", 1).oneshot(vec![Op::QueueSend(q, 5), Op::QueueSend(q, 6), Op::QueueSend(q, 7)]));
    k.add_task(Task::new(1, "c", 2).oneshot(vec![Op::Compute(3), Op::QueueRecv(q)]));
    k.run(12);
    let sent: Vec<u32> = k
        .log
        .iter()
        .filter_map(|e| match e {
            Event::QueueSend { value, .. } => Some(*value),
            _ => None,
        })
        .collect();
    let received: Vec<u32> = k
        .log
        .iter()
        .filter_map(|e| match e {
            Event::QueueRecv { value, .. } => Some(*value),
            _ => None,
        })
        .collect();
    assert_eq!(sent, vec![5, 6, 7]);
    assert_eq!(received, vec![5]);
    assert_eq!(k.queues[q].len(), 2);
    assert!(k.queues[q].is_conserved());
    assert_eq!(first_unbalanced_queue(&k), None);
}

#[test]
fn stress_builders_scale_as_described() {
    let (k, boss) = build_lockstorm(0, 1, true);
    assert_eq!(boss, 5);
    assert_eq!(k.tasks.len(), 6);
    assert_eq!(k.tasks[0].period, Some(30));
    assert_eq!(k.tasks[3].name, "mid0");
    let (k, s) = build_herd(6, 2, 1);
    assert_eq!(s, 0);
    assert_eq!(k.tasks.len(), 6);
    assert_eq!(k.tasks[0].program.len(), 4);
    assert_eq!(k.tasks[0].period, Some(36));
    let k = build_queuechurn(0, 3, 1);
    assert_eq!(k.queues.len(), 2);
    assert_eq!(k.tasks.len(), 4);
    assert_eq!(k.tasks[2].program[1], Op::QueueSend(1, (1 << 24) | 1));
    let k = build_manytasks(10, 1);
    assert_eq!(k.tasks[0].base_priority, 0);
    assert_eq!(k.tasks[9].base_priority, 255);
    assert_eq!(k.tasks[1].period, Some(100));
    let k = build_deadlock();
    assert_eq!(k.tasks[1].next_release, 3);
}

#[test]
fn trackers_fold_the_event_stream() {
    let mut tr = BlockingTracker::new(3, Some(1));
    for e in [
        Event::Tick(2),
        Event::BlockOnMutex { task: 1, mutex: 0, owner: 0 },
        Event::Tick(6),
        Event::Lock { task: 1, mutex: 0 },
        Event::BlockOnMutex { task: 2, mutex: 0, owner: 1 },
    ] {
        tr.event(&e);
    }
    tr.finish();
    assert_eq!(tr.worst, 4);
    assert_eq!(tr.boss_worst, 4);
    assert_eq!(tr.boss_blocks, 1);
    assert!(!tr.boss_open);
    assert_eq!(tr.blocked_at[2], Some(6));
    let mut herd = HerdFold { signals: 0, waits: 0, sem: 0 };
    herd.event(&Event::SemSignal { task: 0, sem: 0 });
    herd.event(&Event::SemSignal { task: 0, sem: 1 });
    herd.event(&Event::SemWait { task: 1, sem: 0 });
    assert_eq!((herd.signals, herd.waits), (1, 1));
    assert!(herd.conserved(0));
    assert!(!herd.conserved(1));
}

#[test]
fn boosts_are_justified_after_contention() {
    let mut k = workload::contended_set(Config::default(), 8);
    k.run(500);
    assert_eq!(first_unjustified_boost(&k), None);
    assert_eq!(k.invariant_violations(), 0);
}

#[test]
fn finished_jobs_cost_exactly_their_budget() {
    let mut k = workload::demo(Config::default());
    let mut checked = 0;
    for _ in 0..200 {
        k.step();
        for t in &k.tasks {
            if !t.job_active {
                assert_eq!(t.cpu_ticks, t.jobs_completed * t.wcet);
                checked += 1;
            } else {
                assert!(t.cpu_ticks >= t.jobs_completed * t.wcet);
                assert!(t.cpu_ticks <= (t.jobs_completed + 1) * t.wcet);
            }
        }
    }
    assert!(checked > 0);
    assert!(k.tasks.iter().all(|t| t.jobs_completed > 0));
}

#[test]
fn boosts_end_when_the_holder_lets_go() {
    let mut k = workload::nested_inversion(Config::default());
    let mut boosted = 0;
    for _ in 0..80 {
        k.step();
        for t in &k.tasks {
            assert!(t.eff_priority >= t.base_priority);
            if t.held_mutexes.is_empty() {
                assert_eq!(t.eff_priority, t.base_priority);
            } else if t.eff_priority > t.base_priority {
                boosted += 1;
            }
        }
    }
    assert!(boosted > 0);
}

#[test]
fn random_sets_follow_the_generator_stream() {
    let pool = [10u64, 20, 25, 40, 50, 100];
    for seed in 0..20u64 {
        for &(num, bounded) in &[(1u64, true), (2u64, false)] {
            let mut a = Rng::new(seed);
            let ts = if bounded {
                workload::random_schedulable_set(&mut a, 4)
            } else {
                workload::random_rm_set(&mut a, 4)
            };
            let mut b = Rng::new(seed);
            let (periods, wcets) = loop {
                let mut ps: Vec<u64> = Vec::new();
                let mut g = 0;
                while ps.len() < 4 && g < 1000 {
                    let p = *b.pick(&pool);
                    if !ps.contains(&p) {
                        ps.push(p);
                    }
                    g += 1;
                }
                if ps.len() < 4 {
                    continue;
                }
                let cs: Vec<u64> = ps.iter().map(|&p| b.range(1, (num * p / 3).max(1))).collect();
                let load: u64 = ps.iter().zip(&cs).map(|(&p, &c)| c * (200 / p)).sum();
                if bounded && load > 151 {
                    continue;
                }
                break (ps, cs);
            };
            assert_eq!(ts.iter().map(|t| t.period.unwrap()).collect::<Vec<u64>>(), periods);
            assert_eq!(ts.iter().map(|t| t.wcet).collect::<Vec<u64>>(), wcets);
            assert_eq!(a.next_u64(), b.next_u64());
        }
    }
}

#[test]
fn queue_fold_replays_fifo_order() {
    let mut f = QueueFold::new(2);
    assert!(f.event(&Event::QueueSend { task: 0, queue: 1, value: 7 }));
    assert!(f.event(&Event::QueueSend { task: 0, queue: 1, value: 8 }));
    assert!(f.event(&Event::Idle));
    assert_eq!(f.expected[1], vec![7, 8]);
    assert!(!f.event(&Event::QueueRecv { task: 1, queue: 1, value: 8 }));
    assert_eq!(f.mismatches, 1);
    assert_eq!(f.expected[1], vec![8]);
    assert!(f.event(&Event::QueueRecv { task: 1, queue: 1, value: 8 }));
    assert!(!f.event(&Event::QueueRecv { task: 1, queue: 0, value: 3 }));
    assert_eq!(f.mismatches, 2);
    assert!(f.expected[0].is_empty() && f.expected[1].is_empty());
}

#[test]
fn record_replay_flags_a_lower_priority_run() {
    let good = TickRecord {
        tick: 1,
        ran: Some(2),
        ready: vec![ReadyEntry { id: 1, base: 3, eff: 3 }, ReadyEntry { id: 2, base: 5, eff: 5 }],
    };
    let idle = TickRecord { tick: 2, ran: None, ready: vec![] };
    let bad = TickRecord {
        tick: 3,
        ran: Some(1),
        ready: vec![ReadyEntry { id: 1, base: 3, eff: 3 }, ReadyEntry { id: 2, base: 5, eff: 5 }],
    };
    let missing = TickRecord { tick: 4, ran: Some(9), ready: vec![ReadyEntry { id: 1, base: 3, eff: 3 }] };
    assert_eq!(first_inconsistent_record(&vec![good.clone(), idle.clone()]), None);
    assert_eq!(first_inconsistent_record(&vec![good.clone(), idle.clone(), bad]), Some(2));
    assert_eq!(first_inconsistent_record(&vec![missing, good]), Some(0));
    let mut k = workload::demo(Config::default());
    k.run(60);
    assert_eq!(first_inconsistent_record(&k.records), None);
}

#[test]
fn a_job_unfinished_at_its_period_is_flagged_on_that_tick() {
    let mut k = Kernel::new(Config::default());
    k.add_task(Task::new(0, "long", 1).periodic(4, vec![Op::Compute(5)]));
    k.run(4);
    assert_eq!(k.tasks[0].deadlines_missed, 0);
    k.run(1);
    assert_eq!(k.tasks[0].deadlines_missed, 1);
    assert!(k.log.iter().any(|e| matches!(e, Event::DeadlineMiss { task: 0, deadline: 5 })));

    let mut exact = Kernel::new(Config::default());
    exact.add_task(Task::new(0, "exact", 1).periodic(4, vec![Op::Compute(4)]));
    exact.run(40);
    assert_eq!(exact.tasks[0].deadlines_missed, 0);
    assert_eq!(exact.tasks[0].jobs_completed, 10);
}

#[test]
fn every_tick_is_recorded_with_its_pick() {
    let mut k = workload::contended_set(Config::default(), 8);
    for _ in 0..300 {
        let now = k.now();
        let idle = k.idle_ticks();
        let n = k.records.len();
        k.step();
        assert_eq!(k.now(), now + 1);
        assert_eq!(k.records.len(), n + 1);
        let r = k.records.last().unwrap();
        assert_eq!(r.tick, k.now());
        assert_eq!(r.ran.is_none(), r.ready.is_empty());
        if let Some(t) = r.ran {
            let top = r.ready.iter().map(|e| e.eff).max().unwrap();
            let first_top = r.ready.iter().find(|e| e.eff == top).unwrap();
            assert_eq!(first_top.id, t);
        }
        assert_eq!(k.idle_ticks(), idle + if r.ran.is_none() { 1 } else { 0 });
        assert_eq!(k.invariant_violations(), 0);
    }
}

#[test]
fn lockstorm_gate_is_decided_in_the_library() {
    let run = |inherit: bool| {
        let (mut k, boss) = build_lockstorm(300, 1, inherit);
        let mut tr = BlockingTracker::new(k.tasks.len(), Some(boss));
        for _ in 0..10 {
            tr.track_run(&mut k, 2_000);
            k.log.clear();
            k.records.clear();
        }
        tr.finish();
        tr
    };
    let on = run(true);
    let off = run(false);
    assert!(on.boss_blocks > 0);
    assert!(
        lockstorm_bounded(&on, &off),
        "on {} {} off {} {} {}",
        on.boss_blocks,
        on.boss_worst,
        off.boss_blocks,
        off.boss_worst,
        off.boss_open
    );
    assert!(!lockstorm_bounded(&off, &on));
}

#[test]
fn deadlock_is_contained() {
    let r = deadlock_outcome(400);
    assert!(r.mid_owners.0.is_some() && r.mid_owners.1.is_some());
    assert_eq!(r.mid_owners, r.end_owners);
    assert!(r.a_waits && r.b_waits);
    assert!(r.background_jobs > 0);
    assert!(deadlock_contained(&r));
    let early = deadlock_outcome(0);
    assert!(!deadlock_contained(&early));
}

#[test]
fn owners_and_held_lists_agree_at_every_tick() {
    for inherit in [true, false] {
        let cfg = Config { priority_inheritance: inherit, ..Config::default() };
        let mut k = workload::contended_set(cfg, 20);
        let mut held_seen = 0;
        for _ in 0..400 {
            k.step();
            for (m, mx) in k.mutexes.iter().enumerate() {
                for t in &k.tasks {
                    assert_eq!(mx.owner == Some(t.id), t.held_mutexes.contains(&m));
                }
            }
            for t in &k.tasks {
                let mut hs = t.held_mutexes.clone();
                hs.sort();
                hs.dedup();
                assert_eq!(hs.len(), t.held_mutexes.len());
                assert!(t.eff_priority >= t.base_priority);
                held_seen += t.held_mutexes.len();
            }
        }
        assert!(held_seen > 0);
    }
}

#[test]
fn a_task_may_be_added_before_the_mutex_it_uses() {
    let mut k = Kernel::new(Config::default());
    k.add_task(Task::new(0, "early", 3).oneshot(vec![Op::Lock(0), Op::Compute(2), Op::Unlock(0)]));
    let m = k.add_mutex();
    assert_eq!(m, 0);
    k.set_next_release(0, 2);
    k.run(6);
    assert_eq!(k.tasks[0].jobs_completed, 1);
    assert!(k.tasks[0].held_mutexes.is_empty());
    assert_eq!(k.mutexes[0].owner, None);
}
