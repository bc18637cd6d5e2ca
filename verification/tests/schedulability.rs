use emberchip::schedulability::{all_schedulable, response_times};
use emberchip::{workload, Config, Kernel, Rng, Task};

fn simulate(tasks: &[Task]) -> u64 {
    let cfg = Config {
        seed: 1,
        ..Config::default()
    };
    let mut k = Kernel::new(cfg);
    for t in tasks {
        k.add_task(t.clone());
    }
    let horizon = workload::hyperperiod(&k.tasks, 5_000).max(1_000);
    k.run(horizon);
    k.total_deadline_misses()
}

fn utilization(t: &Task) -> f64 {
    match t.period {
        Some(p) if p > 0 => t.wcet as f64 / p as f64,
        _ => 0.0,
    }
}

fn rm_bound(n: usize) -> f64 {
    let n = n as f64;
    n * (2f64.powf(1.0 / n) - 1.0)
}

#[test]
fn rta_matches_simulation_over_random_sets() {
    let iters = 400u64;
    let mut seen_schedulable = 0u64;
    let mut seen_unschedulable = 0u64;
    for seed in 0..iters {
        let mut rng = Rng::new(seed.wrapping_mul(2_246_822_519).wrapping_add(5));
        let n = rng.range(2, 6) as usize;
        let tasks = workload::random_rm_set(&mut rng, n);
        let r = response_times(&tasks);
        let schedulable = all_schedulable(&r);
        let misses = simulate(&tasks);
        if schedulable {
            seen_schedulable += 1;
            assert_eq!(
                misses, 0,
                "seed {seed}: RTA said schedulable but the sim missed {misses} deadlines\n{:?}",
                r
            );
        } else {
            seen_unschedulable += 1;
            assert!(
                misses > 0,
                "seed {seed}: RTA said NOT schedulable but the sim missed nothing\n{:?}",
                r
            );
        }
    }
    assert!(
        seen_schedulable > 0 && seen_unschedulable > 0,
        "only one outcome appeared: {seen_schedulable} schedulable, {seen_unschedulable} not"
    );
}

#[test]
fn utilization_bound_is_conservative() {
    let iters = 400u64;
    for seed in 0..iters {
        let mut rng = Rng::new(seed.wrapping_mul(11_400_714_819).wrapping_add(1));
        let n = rng.range(2, 6) as usize;
        let tasks = workload::random_rm_set(&mut rng, n);
        let util: f64 = tasks.iter().map(utilization).sum();
        let utilization_ok = util <= rm_bound(tasks.len().max(1)) + 1e-9;
        let r = response_times(&tasks);
        if utilization_ok {
            assert!(
                all_schedulable(&r),
                "seed {seed}: within the utilization bound but RTA says unschedulable\n{:?}",
                r
            );
        }
    }
}
