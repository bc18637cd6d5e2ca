use emberchip::{workload, Config, Event, Kernel, Op, Rng, Task};

fn check_records(k: &Kernel) -> Result<(), String> {
    for rec in &k.records {
        let Some(ran) = rec.ran else { continue };
        let ran_prio = rec
            .ready
            .iter()
            .find(|e| e.id == ran)
            .map(|e| e.base)
            .ok_or_else(|| format!("tick {}: runner {ran} not in ready set", rec.tick))?;
        for e in &rec.ready {
            if e.base > ran_prio {
                return Err(format!(
                    "tick {}: ran task {ran} (prio {ran_prio}) while task {} (prio {}) was ready",
                    rec.tick, e.id, e.base
                ));
            }
        }
    }
    Ok(())
}

#[test]
fn preemptive_priority_invariant_over_random_sets() {
    let iters = 200u64;
    for seed in 0..iters {
        let mut rng = Rng::new(seed.wrapping_mul(2_654_435_761).wrapping_add(17));
        let n = rng.range(2, 6) as usize;
        let tasks = workload::random_schedulable_set(&mut rng, n);
        let cfg = Config {
            seed,
            ..Config::default()
        };
        let mut k = Kernel::new(cfg);
        for t in tasks {
            k.add_task(t);
        }
        let horizon = workload::hyperperiod(&k.tasks, 2_000).max(500);
        k.run(horizon);
        check_records(&k).unwrap_or_else(|e| panic!("seed {seed}: {e}"));
        assert_eq!(
            k.invariant_violations(),
            0,
            "seed {seed}: kernel flagged an effective-priority invariant violation"
        );
    }
}

#[test]
fn schedulable_sets_meet_all_deadlines() {
    let iters = 200u64;
    for seed in 0..iters {
        let mut rng = Rng::new(seed.wrapping_mul(1_099_511_628_211).wrapping_add(3));
        let n = rng.range(2, 6) as usize;
        let tasks = workload::random_schedulable_set(&mut rng, n);
        let cfg = Config {
            seed,
            ..Config::default()
        };
        let mut k = Kernel::new(cfg);
        for t in tasks {
            k.add_task(t);
        }
        let horizon = workload::hyperperiod(&k.tasks, 2_000).max(500);
        k.run(horizon);
        assert_eq!(
            k.total_deadline_misses(),
            0,
            "seed {seed}: a schedulable set missed a deadline"
        );
        let completed: u64 = k.tasks.iter().map(|t| t.jobs_completed).sum();
        assert!(completed > 0, "seed {seed}: no jobs completed");
    }
}

fn check_records_eff(k: &Kernel) -> Result<(), String> {
    for rec in &k.records {
        let Some(ran) = rec.ran else { continue };
        let ran_eff = rec
            .ready
            .iter()
            .find(|e| e.id == ran)
            .map(|e| e.eff)
            .ok_or_else(|| format!("tick {}: runner {ran} not in ready set", rec.tick))?;
        let max_eff = rec.ready.iter().map(|e| e.eff).max().unwrap_or(0);
        if ran_eff != max_eff {
            return Err(format!(
                "tick {}: ran task {ran} at eff {ran_eff} while eff {max_eff} was ready",
                rec.tick
            ));
        }
    }
    Ok(())
}

#[test]
fn effective_priority_invariant_under_contention() {
    for n in [8usize, 20, 40] {
        let cfg = Config {
            seed: 1,
            ..Config::default()
        };
        let mut k = workload::contended_set(cfg, n);
        k.run(3_000);
        check_records_eff(&k).unwrap_or_else(|e| panic!("n={n}: {e}"));
        assert_eq!(
            k.invariant_violations(),
            0,
            "n={n}: kernel flagged an effective-priority violation"
        );
        let mut owner: Option<usize> = None;
        let mut locks = 0u64;
        for ev in &k.log {
            match ev {
                Event::Lock { task, .. } => {
                    assert!(owner.is_none(), "n={n}: two tasks held the mutex at once");
                    owner = Some(*task);
                    locks += 1;
                }
                Event::Unlock { task, .. } => {
                    assert_eq!(owner, Some(*task), "n={n}: unlock by non-owner");
                    owner = None;
                }
                _ => {}
            }
        }
        assert!(locks > 0, "n={n}: the mutex was never taken, contention is vacuous");
        let blocked = k.log.iter().any(|e| matches!(e, Event::BlockOnMutex { .. }));
        assert!(blocked, "n={n}: no task ever blocked on the mutex, no real contention");
        for t in &k.tasks {
            assert!(
                t.jobs_completed > 0,
                "n={n}: task {} (prio {}) starved",
                t.id,
                t.base_priority
            );
        }
    }
}

#[test]
fn strictly_higher_priority_task_always_preempts() {
    let cfg = Config {
        seed: 1,
        ..Config::default()
    };
    let mut k = Kernel::new(cfg);
    k.add_task(Task::new(0, "lo", 1).periodic(100, vec![Op::Compute(40)]));
    k.add_task(Task::new(1, "hi", 9).periodic(100, vec![Op::Compute(3)]));
    k.tasks[1].next_release = 5;
    k.run(12);
    let preempt = k
        .log
        .iter()
        .any(|e| matches!(e, Event::Preempt { preempted: 0, by: 1 }));
    assert!(preempt, "high priority release must preempt the running low task");
}
