//! The RTOS kernel: task table, synchronization objects, the preemptive
//! fixed-priority scheduler, and the tick-driven run loop.
//!
//! Time is discrete. Each call to [`Kernel::step`] is one system tick: the timer
//! raises its interrupt, the tick ISR releases due jobs and wakes sleepers, the
//! scheduler picks the highest-priority ready task, and that task runs for one
//! quantum. The whole run is a function of the kernel's state: `step` is specified
//! as `KernelView::stepped` and `run` as `KernelView::run_for`.
use vstd::prelude::*;

pub mod accounting;
pub mod event;
pub mod inherit;
pub mod wellformed;
pub mod laws;
pub mod ledger;
pub mod model;
pub mod fixed_priority;
pub mod boost;
pub mod restore;
pub mod holding;
pub mod setup;
pub mod work;
pub mod mutex;
pub mod ops;
pub mod preserve;
pub mod queue;
pub mod sched;
pub mod select;
pub mod semaphore;
pub mod task;

pub use event::Event;
pub use model::{KernelView, TickRecordView};
pub use mutex::{Mutex, MutexView};
pub use queue::{Queue, QueueView};
pub use semaphore::{Semaphore, SemaphoreView};
pub use task::{compute_budget, BlockReason, Op, Priority, Task, TaskState, TaskView};

use crate::mcu::{Mcu, DEFAULT_RAM};
use crate::rng::Rng;

verus! {

/// Kernel configuration.
#[derive(Clone, Copy, Debug)]
pub struct Config {
    pub ram: usize,
    pub tick_reload: u64,
    /// When false, mutexes give mutual exclusion but do not boost the holder, which
    /// is how the unbounded-inversion contrast is produced.
    pub priority_inheritance: bool,
    pub seed: u64,
}

impl Config {
    /// The default configuration: 64 KiB of RAM, a tick every clock, priority
    /// inheritance on, seed 1.
    pub open spec fn default_spec() -> Config {
        Config { ram: DEFAULT_RAM, tick_reload: 1, priority_inheritance: true, seed: 1 }
    }
}

impl Default for Config {
    fn default() -> (c: Config)
        ensures
            c == Config::default_spec(),
    {
        Config { ram: DEFAULT_RAM, tick_reload: 1, priority_inheritance: true, seed: 1 }
    }
}

/// One snapshot of a ready task at a scheduling decision.
#[derive(Clone, Copy, Debug, PartialEq, Eq, Hash)]
pub struct ReadyEntry {
    pub id: usize,
    pub base: Priority,
    pub eff: Priority,
}

/// What the scheduler saw and decided on a single tick.
#[derive(Clone, Debug, Hash)]
pub struct TickRecord {
    pub tick: u64,
    pub ran: Option<usize>,
    pub ready: Vec<ReadyEntry>,
}

impl View for TickRecord {
    type V = TickRecordView;

    open spec fn view(&self) -> TickRecordView {
        TickRecordView { tick: self.tick, ran: self.ran, ready: self.ready@ }
    }
}

pub struct Kernel {
    pub mcu: Mcu,
    pub tasks: Vec<Task>,
    pub mutexes: Vec<Mutex>,
    pub semaphores: Vec<Semaphore>,
    pub queues: Vec<Queue>,
    pub log: Vec<Event>,
    pub records: Vec<TickRecord>,
    pub rng: Rng,
    pub config: Config,
    now: u64,
    running: Option<usize>,
    idle_ticks: u64,
    invariant_violations: u64,
}

pub open spec fn view_tasks(v: Seq<Task>) -> Seq<TaskView> {
    Seq::new(v.len(), |i: int| v[i]@)
}

pub open spec fn view_mutexes(v: Seq<Mutex>) -> Seq<MutexView> {
    Seq::new(v.len(), |i: int| v[i]@)
}

pub open spec fn view_semaphores(v: Seq<Semaphore>) -> Seq<SemaphoreView> {
    Seq::new(v.len(), |i: int| v[i]@)
}

pub open spec fn view_queues(v: Seq<Queue>) -> Seq<QueueView> {
    Seq::new(v.len(), |i: int| v[i]@)
}

pub open spec fn view_records(v: Seq<TickRecord>) -> Seq<TickRecordView> {
    Seq::new(v.len(), |i: int| v[i]@)
}

/// The sequences inside a task's view have lengths that fit in `usize`.
proof fn lemma_task_lens(t: Task)
    ensures
        t@.program.len() <= usize::MAX,
        t@.held_mutexes.len() <= usize::MAX,
{
    assert(t.program@.len() == t.program.len());
    assert(t.held_mutexes@.len() == t.held_mutexes.len());
}

proof fn lemma_tasks_update(v: Seq<Task>, i: int, t: Task)
    requires
        0 <= i < v.len(),
    ensures
        view_tasks(v.update(i, t)) == view_tasks(v).update(i, t@),
{
    assert(view_tasks(v.update(i, t)) =~= view_tasks(v).update(i, t@));
}

proof fn lemma_mutexes_update(v: Seq<Mutex>, i: int, t: Mutex)
    requires
        0 <= i < v.len(),
    ensures
        view_mutexes(v.update(i, t)) == view_mutexes(v).update(i, t@),
{
    assert(view_mutexes(v.update(i, t)) =~= view_mutexes(v).update(i, t@));
}

proof fn lemma_semaphores_update(v: Seq<Semaphore>, i: int, t: Semaphore)
    requires
        0 <= i < v.len(),
    ensures
        view_semaphores(v.update(i, t)) == view_semaphores(v).update(i, t@),
{
    assert(view_semaphores(v.update(i, t)) =~= view_semaphores(v).update(i, t@));
}

proof fn lemma_queues_update(v: Seq<Queue>, i: int, t: Queue)
    requires
        0 <= i < v.len(),
    ensures
        view_queues(v.update(i, t)) == view_queues(v).update(i, t@),
{
    assert(view_queues(v.update(i, t)) =~= view_queues(v).update(i, t@));
}

proof fn lemma_records_push(v: Seq<TickRecord>, t: TickRecord)
    ensures
        view_records(v.push(t)) == view_records(v).push(t@),
{
    assert(view_records(v.push(t)) =~= view_records(v).push(t@));
}

impl View for Kernel {
    type V = KernelView;

    closed spec fn view(&self) -> KernelView {
        KernelView {
            mcu: self.mcu@,
            tasks: view_tasks(self.tasks@),
            mutexes: view_mutexes(self.mutexes@),
            semaphores: view_semaphores(self.semaphores@),
            queues: view_queues(self.queues@),
            log: self.log@,
            records: view_records(self.records@),
            rng: self.rng@,
            config: self.config,
            now: self.now,
            running: self.running,
            idle_ticks: self.idle_ticks,
            invariant_violations: self.invariant_violations,
        }
    }
}

impl Kernel {
    pub fn new(config: Config) -> (k: Kernel)
        ensures
            k@ == KernelView::initial(config, k@.mcu),
            k@.mcu.memory == Seq::new(config.ram as nat, |i: int| 0u8),
            k@.mcu.gpio == crate::mcu::gpio::all_low(),
            k@.mcu.uart.text == Seq::<char>::empty(),
            k@.mcu.uart.bytes_out == 0,
            k@.mcu.timer == crate::mcu::TimerView::initial(config.tick_reload),
            k@.mcu.nvic.pending == Seq::<crate::mcu::Irq>::empty(),
            k@.mcu.nvic.serviced == 0,
            k@.mcu.cycles == 0,
            k@.mcu == crate::mcu::McuView::fresh(config.ram, config.tick_reload),
            k@.wf(),
            crate::kernel::setup::setup_ok(k@),
    {
        let mcu = Mcu::new(config.ram, config.tick_reload);
        let rng = Rng::new(config.seed);
        let k = Kernel {
            mcu,
            tasks: Vec::new(),
            mutexes: Vec::new(),
            semaphores: Vec::new(),
            queues: Vec::new(),
            log: Vec::new(),
            records: Vec::new(),
            rng,
            config,
            now: 0,
            running: None,
            idle_ticks: 0,
            invariant_violations: 0,
        };
        assert(k@.tasks =~= Seq::<TaskView>::empty());
        assert(k@.mutexes =~= Seq::<MutexView>::empty());
        assert(k@.semaphores =~= Seq::<SemaphoreView>::empty());
        assert(k@.queues =~= Seq::<QueueView>::empty());
        assert(k@.records =~= Seq::<TickRecordView>::empty());
        proof {
            crate::kernel::setup::lemma_wf_setup(k@);
        }
        k
    }

    // ----- construction -----

    /// Add a task. It takes the next id and is first released at tick 1.
    pub fn add_task(&mut self, task: Task) -> (id: usize)
        ensures
            id == old(self)@.tasks.len(),
            final(self)@ == old(self)@.with_new_task(task@),
            old(self)@.wf() && old(self)@.tasks.len() < usize::MAX && old(self)@.admits(task@) ==> final(self)@.wf(),
            crate::kernel::setup::setup_ok(old(self)@) && old(self)@.tasks.len() < usize::MAX && task@.pc
                <= task@.program.len() && task@.held_mutexes.len() == 0 && task@.blocked_on is None
                ==> crate::kernel::setup::setup_ok(final(self)@),
    {
        proof {
            lemma_task_lens(task);
            if crate::kernel::setup::setup_ok(old(self)@) && old(self)@.tasks.len() < usize::MAX && task@.pc
                <= task@.program.len() && task@.held_mutexes.len() == 0 && task@.blocked_on is None {
                crate::kernel::setup::lemma_setup_task(old(self)@, task@);
            }
            if old(self)@.wf() && old(self)@.tasks.len() < usize::MAX && old(self)@.admits(task@) {
                old(self)@.lemma_new_task_wf(task@);
            }
        }
        let mut task = task;
        let id = self.tasks.len();
        task.id = id;
        task.next_release = 1;
        task.state = TaskState::Suspended;
        self.tasks.push(task);
        proof {
            assert(self@.tasks =~= old(self)@.tasks.push(task@));
        }
        id
    }

    pub fn add_mutex(&mut self) -> (id: usize)
        ensures
            id == old(self)@.mutexes.len(),
            final(self)@ == (KernelView {
                mutexes: old(self)@.mutexes.push(MutexView::fresh()),
                ..old(self)@
            }),
            crate::kernel::setup::setup_ok(old(self)@) ==> crate::kernel::setup::setup_ok(final(self)@),
    {
        let m = Mutex::new();
        self.mutexes.push(m);
        proof {
            assert(self.mutexes@.len() == self.mutexes.len());
            if crate::kernel::setup::setup_ok(old(self)@) {
                crate::kernel::setup::lemma_setup_mutex(old(self)@);
            }
            assert(self@.mutexes =~= old(self)@.mutexes.push(MutexView::fresh()));
        }
        self.mutexes.len() - 1
    }

    pub fn add_semaphore(&mut self, initial: u32, max: u32) -> (id: usize)
        ensures
            id == old(self)@.semaphores.len(),
            final(self)@ == (KernelView {
                semaphores: old(self)@.semaphores.push(SemaphoreView::initial(initial, max)),
                ..old(self)@
            }),
            crate::kernel::setup::setup_ok(old(self)@) ==> crate::kernel::setup::setup_ok(final(self)@),
    {
        let s = Semaphore::new(initial, max);
        self.semaphores.push(s);
        proof {
            assert(self.semaphores@.len() == self.semaphores.len());
            if crate::kernel::setup::setup_ok(old(self)@) {
                crate::kernel::setup::lemma_setup_semaphore(old(self)@, SemaphoreView::initial(initial, max));
            }
            assert(self@.semaphores =~= old(self)@.semaphores.push(SemaphoreView::initial(initial, max)));
        }
        self.semaphores.len() - 1
    }

    pub fn add_queue(&mut self, capacity: usize) -> (id: usize)
        ensures
            id == old(self)@.queues.len(),
            final(self)@ == (KernelView {
                queues: old(self)@.queues.push(QueueView::initial(capacity)),
                ..old(self)@
            }),
            crate::kernel::setup::setup_ok(old(self)@) ==> crate::kernel::setup::setup_ok(final(self)@),
    {
        let q = Queue::new(capacity);
        self.queues.push(q);
        proof {
            assert(self.queues@.len() == self.queues.len());
            if crate::kernel::setup::setup_ok(old(self)@) {
                crate::kernel::setup::lemma_setup_queue(old(self)@, QueueView::initial(capacity));
            }
            assert(self@.queues =~= old(self)@.queues.push(QueueView::initial(capacity)));
        }
        self.queues.len() - 1
    }

    /// Set the tick at which task `id` is next released.
    pub fn set_next_release(&mut self, id: usize, tick: u64)
        requires
            id < old(self)@.tasks.len(),
        ensures
            final(self)@ == old(self)@.set_task(id, TaskView { next_release: tick, ..old(self)@.tasks[id as int] }),
    {
        let ghost before = self.tasks@;
        self.tasks[id].next_release = tick;
        proof {
            assert(self.tasks@ =~= before.update(id as int, self.tasks@[id as int]));
            lemma_tasks_update(before, id as int, self.tasks@[id as int]);
        }
    }

    // ----- accessors -----

    /// The task table.
    pub fn task_list(&self) -> (ts: &Vec<Task>)
        ensures
            view_tasks(ts@) == self@.tasks,
    {
        &self.tasks
    }

    /// The mutexes.
    pub fn mutex_list(&self) -> (ms: &Vec<Mutex>)
        ensures
            view_mutexes(ms@) == self@.mutexes,
    {
        &self.mutexes
    }

    /// The message queues.
    pub fn queue_list(&self) -> (qs: &Vec<Queue>)
        ensures
            view_queues(qs@) == self@.queues,
    {
        &self.queues
    }

    /// The timer interrupts raised so far.
    pub fn timer_interrupts(&self) -> (n: u64)
        ensures
            n == self@.mcu.timer.fired,
    {
        self.mcu.timer_interrupts()
    }

    /// The bytes the UART has put on the wire so far.
    pub fn uart_bytes_out(&self) -> (n: u64)
        ensures
            n == self@.mcu.uart.bytes_out,
    {
        self.mcu.uart_bytes_out()
    }

    /// The event log.
    pub fn event_log(&self) -> (log: &Vec<Event>)
        ensures
            log@ == self@.log,
    {
        &self.log
    }

    pub fn now(&self) -> (n: u64)
        ensures
            n == self@.now,
    {
        self.now
    }

    pub fn idle_ticks(&self) -> (n: u64)
        ensures
            n == self@.idle_ticks,
    {
        self.idle_ticks
    }

    pub fn invariant_violations(&self) -> (n: u64)
        ensures
            n == self@.invariant_violations,
    {
        self.invariant_violations
    }

    pub fn running(&self) -> (r: Option<usize>)
        ensures
            r == self@.running,
    {
        self.running
    }

    /// Total deadline misses over all tasks.
    pub fn total_deadline_misses(&self) -> (n: u64)
        requires
            model::total_misses(self@.tasks, self@.tasks.len() as int) <= u64::MAX,
        ensures
            n == model::total_misses(self@.tasks, self@.tasks.len() as int),
    {
        let mut total: u64 = 0;
        let mut i: usize = 0;
        while i < self.tasks.len()
            invariant
                i <= self.tasks.len(),
                self@.tasks.len() == self.tasks.len(),
                model::total_misses(self@.tasks, self@.tasks.len() as int) <= u64::MAX,
                total == model::total_misses(self@.tasks, i as int),
            decreases self.tasks.len() - i,
        {
            proof {
                model::lemma_total_misses_mono(self@.tasks, i + 1, self@.tasks.len() as int);
            }
            total = total + self.tasks[i].deadlines_missed;
            i = i + 1;
        }
        total
    }

    fn eff_snapshot(&self) -> (snap: Vec<u8>)
        ensures
            snap@ == self@.eff_table(),
    {
        let mut snap: Vec<u8> = Vec::new();
        let mut i: usize = 0;
        while i < self.tasks.len()
            invariant
                i <= self.tasks.len(),
                snap@.len() == i,
                forall|j: int| 0 <= j < i ==> snap@[j] == self.tasks@[j].eff_priority,
            decreases self.tasks.len() - i,
        {
            snap.push(self.tasks[i].eff_priority);
            i = i + 1;
        }
        assert(snap@ =~= self@.eff_table());
        snap
    }
}

} // verus!
