use emberchip::kernel::{Mutex, Queue, Semaphore};
use emberchip::mcu::{Gpio, InterruptController, Irq, Memory, Timer, Uart};
use emberchip::{workload, Config, Event, Kernel, Mcu, Op, Rng, Task};

fn basic() -> Config {
    Config {
        seed: 5,
        ..Config::default()
    }
}

#[test]
fn scheduler_pick_prefers_higher_priority() {
    let mut k = Kernel::new(basic());
    k.add_task(Task::new(0, "lo", 1).periodic(100, vec![Op::Compute(50)]));
    k.add_task(Task::new(1, "hi", 9).periodic(100, vec![Op::Compute(50)]));
    k.step();
    assert_eq!(k.running(), Some(1));
}

#[test]
fn higher_priority_preempts_lower() {
    let mut k = Kernel::new(basic());
    k.add_task(Task::new(0, "lo", 1).periodic(100, vec![Op::Compute(50)]));
    let mut hi = Task::new(1, "hi", 9).periodic(100, vec![Op::Compute(5)]);
    hi.next_release = 0;
    k.add_task(hi);
    k.tasks[1].next_release = 4;
    k.run(6);
    let preempted = k
        .log
        .iter()
        .any(|e| matches!(e, Event::Preempt { preempted: 0, by: 1 }));
    assert!(preempted, "high priority task should preempt low");
}

#[test]
fn mutex_gives_mutual_exclusion() {
    let mut k = Kernel::new(basic());
    let m = k.add_mutex();
    k.add_task(Task::new(0, "a", 5).periodic(100, vec![Op::Lock(m), Op::Compute(3), Op::Unlock(m)]));
    k.add_task(Task::new(1, "b", 6).periodic(100, vec![Op::Lock(m), Op::Compute(3), Op::Unlock(m)]));
    k.run(30);
    assert!(k.mutexes[m].is_free());
    assert_eq!(k.invariant_violations(), 0);
}

#[test]
fn mutual_exclusion() {
    let mut m = Mutex::new();
    assert!(m.try_acquire(1));
    assert!(!m.try_acquire(2));
    assert!(!m.is_free());
}

#[test]
fn release_grants_highest_priority_waiter() {
    let mut m = Mutex::new();
    m.try_acquire(0);
    m.add_waiter(1);
    m.add_waiter(2);
    let prio = |t: usize| if t == 2 { 9 } else { 3 };
    assert_eq!(m.release(0, prio), Some(2));
    assert_eq!(m.owner, Some(2));
}

#[test]
fn release_with_no_waiters_frees() {
    let mut m = Mutex::new();
    m.try_acquire(0);
    assert_eq!(m.release(0, |_| 0), None);
    assert!(m.is_free());
}

#[test]
fn fifo_order() {
    let mut q = Queue::new(4);
    assert!(q.try_send(10));
    assert!(q.try_send(20));
    assert!(q.try_send(30));
    assert_eq!(q.try_recv(), Some(10));
    assert_eq!(q.try_recv(), Some(20));
    assert_eq!(q.try_recv(), Some(30));
    assert_eq!(q.try_recv(), None);
}

#[test]
fn full_blocks_send() {
    let mut q = Queue::new(2);
    assert!(q.try_send(1));
    assert!(q.try_send(2));
    assert!(!q.try_send(3));
    assert!(q.is_full());
}

#[test]
fn no_loss_no_duplication() {
    let mut q = Queue::new(3);
    for i in 0..3 {
        assert!(q.try_send(i));
    }
    let mut seen = Vec::new();
    while let Some(v) = q.try_recv() {
        seen.push(v);
    }
    assert_eq!(seen, vec![0, 1, 2]);
    assert_eq!(q.sent, 3);
    assert_eq!(q.received, 3);
}

#[test]
fn wait_consumes_count() {
    let mut s = Semaphore::new(2, 4);
    assert!(s.try_wait());
    assert!(s.try_wait());
    assert!(!s.try_wait());
    assert_eq!(s.count(), 0);
}

#[test]
fn signal_without_waiters_increments() {
    let mut s = Semaphore::new(0, 4);
    assert_eq!(s.signal(|_| 0), None);
    assert_eq!(s.count(), 1);
}

#[test]
fn signal_wakes_highest_priority_waiter() {
    let mut s = Semaphore::new(0, 4);
    s.add_waiter(1);
    s.add_waiter(2);
    let prio = |t: usize| if t == 2 { 9 } else { 1 };
    assert_eq!(s.signal(prio), Some(2));
    assert_eq!(s.count(), 0);
}

#[test]
fn count_saturates_at_max() {
    let mut s = Semaphore::new(0, 2);
    s.signal(|_| 0);
    s.signal(|_| 0);
    s.signal(|_| 0);
    assert_eq!(s.count(), 2);
}

#[test]
fn set_and_get() {
    let mut g = Gpio::new();
    assert!(g.set(2, true));
    assert_eq!(g.get(2), Some(true));
}

#[test]
fn toggle_flips() {
    let mut g = Gpio::new();
    assert_eq!(g.toggle(0), Some(true));
    assert_eq!(g.toggle(0), Some(false));
    assert!(!g.led());
}

#[test]
fn bad_pin() {
    let mut g = Gpio::new();
    assert_eq!(g.get(99), None);
    assert!(!g.set(99, true));
    assert_eq!(g.toggle(99), None);
}

#[test]
fn raise_and_drain() {
    let mut ic = InterruptController::new();
    ic.raise(Irq::Gpio(3));
    ic.raise(Irq::Timer);
    assert!(ic.is_pending(Irq::Timer));
    let drained = ic.take_pending();
    assert_eq!(drained, vec![Irq::Timer, Irq::Gpio(3)]);
    assert!(!ic.is_pending(Irq::Timer));
    assert_eq!(ic.serviced(), 2);
}

#[test]
fn no_duplicate_pending() {
    let mut ic = InterruptController::new();
    ic.raise(Irq::Timer);
    ic.raise(Irq::Timer);
    assert_eq!(ic.take_pending().len(), 1);
}

#[test]
fn byte_round_trip() {
    let mut m = Memory::new(64);
    assert!(m.write(10, 0xAB));
    assert_eq!(m.read(10), Some(0xAB));
}

#[test]
fn word_round_trip() {
    let mut m = Memory::new(64);
    assert!(m.write_word(8, 0xDEAD_BEEF));
    assert_eq!(m.read_word(8), Some(0xDEAD_BEEF));
}

#[test]
fn out_of_bounds_is_none() {
    let mut m = Memory::new(4);
    assert_eq!(m.read(99), None);
    assert!(!m.write(99, 1));
    assert!(!m.write_word(2, 1));
}

#[test]
fn cycle_raises_tick_interrupt() {
    let mut mcu = Mcu::new(1024, 1);
    mcu.cycle();
    assert!(mcu.nvic.is_pending(Irq::Timer));
    assert_eq!(mcu.cycles(), 1);
}

#[test]
fn fires_every_clock_when_reload_one() {
    let mut t = Timer::new(1);
    for _ in 0..5 {
        assert!(t.clock());
    }
    assert_eq!(t.interrupts_raised(), 5);
}

#[test]
fn fires_on_wrap() {
    let mut t = Timer::new(3);
    assert!(!t.clock());
    assert!(!t.clock());
    assert!(t.clock());
    assert!(!t.clock());
    assert_eq!(t.interrupts_raised(), 1);
}

#[test]
fn zero_reload_is_clamped() {
    let mut t = Timer::new(0);
    assert_eq!(t.reload(), 1);
    assert!(t.clock());
}

#[test]
fn appends_output() {
    let mut u = Uart::new();
    u.write("ab");
    u.writeln("c");
    assert_eq!(u.contents(), "abc\n");
    assert_eq!(u.bytes_out(), 4);
}

#[test]
fn same_seed_same_stream() {
    let mut a = Rng::new(42);
    let mut b = Rng::new(42);
    for _ in 0..1000 {
        assert_eq!(a.next_u64(), b.next_u64());
    }
}

#[test]
fn range_is_inclusive_and_bounded() {
    let mut r = Rng::new(7);
    for _ in 0..10_000 {
        let v = r.range(3, 9);
        assert!((3..=9).contains(&v));
    }
}

#[test]
fn hyperperiod_caps() {
    let mut rng = Rng::new(1);
    let tasks = workload::random_schedulable_set(&mut rng, 5);
    assert!(workload::hyperperiod(&tasks, 10_000) <= 10_000);
}

fn utilization(t: &Task) -> f64 {
    match t.period {
        Some(p) if p > 0 => t.wcet as f64 / p as f64,
        _ => 0.0,
    }
}

fn rm_bound(n: usize) -> f64 {
    let n = n as f64;
    n * (2f64.powf(1.0 / n) - 1.0)
}

#[test]
fn generated_set_is_within_bound() {
    let mut rng = Rng::new(123);
    for _ in 0..50 {
        let n = (rng.range(2, 6)) as usize;
        let tasks = workload::random_schedulable_set(&mut rng, n);
        let util: f64 = tasks.iter().map(utilization).sum();
        assert!(util <= rm_bound(tasks.len()) + 1e-9, "util {util} over bound");
    }
}

#[test]
fn single_task_response_is_its_wcet() {
    let t = Task::new(0, "a", 1).periodic(10, vec![Op::Compute(4)]);
    let r = emberchip::schedulability::response_times(std::slice::from_ref(&t));
    assert_eq!(r[0], Some(4));
    assert!(emberchip::schedulability::all_schedulable(&r));
}

#[test]
fn interference_stacks_from_higher_priority() {
    let hi = Task::new(0, "hi", 2).periodic(5, vec![Op::Compute(2)]);
    let lo = Task::new(1, "lo", 1).periodic(10, vec![Op::Compute(3)]);
    let r = emberchip::schedulability::response_times(&[hi, lo]);
    assert_eq!(r[0], Some(2));
    assert_eq!(r[1], Some(5));
    assert!(emberchip::schedulability::all_schedulable(&r));
}

#[test]
fn overload_is_unschedulable() {
    let a1 = Task::new(0, "a", 2).periodic(10, vec![Op::Compute(6)]);
    let a2 = Task::new(1, "b", 1).periodic(10, vec![Op::Compute(6)]);
    let tasks = [a1, a2];
    let r = emberchip::schedulability::response_times(&tasks);
    assert!(!emberchip::schedulability::all_schedulable(&r));
    let util: f64 = tasks.iter().map(utilization).sum();
    assert!(!(util <= rm_bound(2) + 1e-9));
}
