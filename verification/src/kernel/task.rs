//! Tasks and their execution model: a task is a program of operations run one
//! quantum at a time.
use vstd::prelude::*;
use crate::kernel::model::{deadline_checked, is_due, misses, released, slept};

verus! {

/// Priority. A larger number is more urgent.
pub type Priority = u8;

/// One instruction in a task program.
#[derive(Clone, Debug, PartialEq, Eq)]
pub enum Op {
    /// Burn `n` ticks of CPU. This is the work the schedulability model counts.
    Compute(u64),
    /// Sleep for `n` ticks, then become ready again.
    Delay(u64),
    /// Drive a GPIO pin to a level.
    GpioSet(usize, bool),
    /// Flip a GPIO pin.
    GpioToggle(usize),
    /// Emit text on the UART.
    Uart(String),
    /// Acquire a mutex, blocking (with priority inheritance) if it is held.
    Lock(usize),
    /// Release a mutex.
    Unlock(usize),
    /// Take one unit from a counting semaphore, blocking if it is zero.
    SemWait(usize),
    /// Give one unit to a counting semaphore, waking a waiter if any.
    SemSignal(usize),
    /// Send a value into a message queue, blocking if it is full.
    QueueSend(usize, u32),
    /// Receive a value from a message queue, blocking if it is empty.
    QueueRecv(usize),
}

#[derive(Clone, Copy, Debug, PartialEq, Eq, Structural, Hash)]
pub enum TaskState {
    Ready,
    Running,
    Blocked,
    Suspended,
}

/// Why a blocked task is waiting.
#[derive(Clone, Copy, Debug, PartialEq, Eq, Structural, Hash)]
pub enum BlockReason {
    Sleep,
    Mutex(usize),
    Semaphore(usize),
    QueueRecv(usize),
    QueueSend(usize),
    WaitPeriod,
}

#[derive(Clone, Debug)]
pub struct Task {
    pub id: usize,
    pub name: String,
    pub base_priority: Priority,
    /// Current priority, possibly boosted by inheritance while holding a mutex.
    pub eff_priority: Priority,
    /// Period in ticks for a periodic task. `None` for a one-shot task.
    pub period: Option<u64>,
    /// Worst-case execution time in ticks, for the schedulability model.
    pub wcet: u64,
    pub state: TaskState,
    pub program: Vec<Op>,
    pub pc: usize,
    pub compute_remaining: u64,
    pub next_release: u64,
    pub wake_at: u64,
    pub deadline: u64,
    pub job_active: bool,
    pub missed_current: bool,
    /// The task stack, held as plain memory.
    pub stack: Vec<u8>,
    pub held_mutexes: Vec<usize>,
    pub blocked_on: Option<BlockReason>,
    pub jobs_released: u64,
    pub jobs_completed: u64,
    pub deadlines_missed: u64,
    pub cpu_ticks: u64,
    pub preemptions: u64,
}

/// The whole state of a task, with its sequences as mathematical sequences.
pub struct TaskView {
    pub id: usize,
    pub name: Seq<char>,
    pub base_priority: u8,
    pub eff_priority: u8,
    pub period: Option<u64>,
    pub wcet: u64,
    pub state: TaskState,
    pub program: Seq<Op>,
    pub pc: usize,
    pub compute_remaining: u64,
    pub next_release: u64,
    pub wake_at: u64,
    pub deadline: u64,
    pub job_active: bool,
    pub missed_current: bool,
    pub stack: Seq<u8>,
    pub held_mutexes: Seq<usize>,
    pub blocked_on: Option<BlockReason>,
    pub jobs_released: u64,
    pub jobs_completed: u64,
    pub deadlines_missed: u64,
    pub cpu_ticks: u64,
    pub preemptions: u64,
}

impl View for Task {
    type V = TaskView;

    open spec fn view(&self) -> TaskView {
        TaskView {
            id: self.id,
            name: self.name@,
            base_priority: self.base_priority,
            eff_priority: self.eff_priority,
            period: self.period,
            wcet: self.wcet,
            state: self.state,
            program: self.program@,
            pc: self.pc,
            compute_remaining: self.compute_remaining,
            next_release: self.next_release,
            wake_at: self.wake_at,
            deadline: self.deadline,
            job_active: self.job_active,
            missed_current: self.missed_current,
            stack: self.stack@,
            held_mutexes: self.held_mutexes@,
            blocked_on: self.blocked_on,
            jobs_released: self.jobs_released,
            jobs_completed: self.jobs_completed,
            deadlines_missed: self.deadlines_missed,
            cpu_ticks: self.cpu_ticks,
            preemptions: self.preemptions,
        }
    }
}

/// CPU ticks one operation costs: its `Compute` amount, zero for anything else.
pub open spec fn op_cost(op: Op) -> nat {
    match op {
        Op::Compute(n) => n as nat,
        _ => 0,
    }
}

/// Total CPU ticks a single job of `program` requires.
pub open spec fn budget(program: Seq<Op>) -> nat
    decreases program.len(),
{
    if program.len() == 0 {
        0
    } else {
        budget(program.drop_last()) + op_cost(program.last())
    }
}

/// The budget of a prefix never exceeds the budget of the whole program.
pub proof fn lemma_budget_prefix(program: Seq<Op>, i: int)
    requires
        0 <= i <= program.len(),
    ensures
        budget(program.take(i)) <= budget(program),
    decreases program.len() - i,
{
    if i < program.len() {
        lemma_budget_prefix(program, i + 1);
        assert(program.take(i + 1).drop_last() =~= program.take(i));
    } else {
        assert(program.take(i) =~= program);
    }
}

/// Total CPU ticks a single job of this program requires.
pub fn compute_budget(program: &[Op]) -> (total: u64)
    requires
        budget(program@) <= u64::MAX,
    ensures
        total == budget(program@),
{
    let mut total: u64 = 0;
    let mut i: usize = 0;
    while i < program.len()
        invariant
            i <= program@.len(),
            budget(program@) <= u64::MAX,
            total == budget(program@.take(i as int)),
        decreases program.len() - i,
    {
        proof {
            lemma_budget_prefix(program@, i + 1);
            assert(program@.take(i + 1).drop_last() =~= program@.take(i as int));
        }
        match &program[i] {
            Op::Compute(n) => {
                total = total + *n;
            },
            _ => {},
        }
        i = i + 1;
    }
    proof {
        assert(program@.take(program@.len() as int) =~= program@);
    }
    total
}

impl TaskView {
    /// A freshly built task: suspended at the start of an empty program, at its base
    /// priority, with a 512-byte stack and no history.
    pub open spec fn is_fresh(self, id: usize, priority: u8) -> bool {
        &&& self.id == id
        &&& self.base_priority == priority
        &&& self.eff_priority == priority
        &&& self.period is None
        &&& self.wcet == 0
        &&& self.state == TaskState::Suspended
        &&& self.program == Seq::<Op>::empty()
        &&& self.pc == 0
        &&& self.compute_remaining == 0
        &&& self.next_release == 0
        &&& self.wake_at == 0
        &&& self.deadline == 0
        &&& !self.job_active
        &&& !self.missed_current
        &&& self.stack == Seq::new(512, |i: int| 0u8)
        &&& self.held_mutexes == Seq::<usize>::empty()
        &&& self.blocked_on is None
        &&& self.jobs_released == 0
        &&& self.jobs_completed == 0
        &&& self.deadlines_missed == 0
        &&& self.cpu_ticks == 0
        &&& self.preemptions == 0
    }
}

impl Task {
    pub fn new(id: usize, name: &str, priority: Priority) -> (t: Task)
        ensures
            t@.is_fresh(id, priority),
            t@.name == name@,
    {
        let t = Task {
            id,
            name: String::from_str(name),
            base_priority: priority,
            eff_priority: priority,
            period: None,
            wcet: 0,
            state: TaskState::Suspended,
            program: Vec::new(),
            pc: 0,
            compute_remaining: 0,
            next_release: 0,
            wake_at: 0,
            deadline: 0,
            job_active: false,
            missed_current: false,
            stack: vec![0u8; 512],
            held_mutexes: Vec::new(),
            blocked_on: None,
            jobs_released: 0,
            jobs_completed: 0,
            deadlines_missed: 0,
            cpu_ticks: 0,
            preemptions: 0,
        };
        assert(t@.stack =~= Seq::new(512, |i: int| 0u8));
        t
    }

    /// A periodic task: released every `period` ticks with an implicit deadline equal
    /// to the period.
    pub fn periodic(self, period: u64, program: Vec<Op>) -> (t: Task)
        requires
            budget(program@) <= u64::MAX,
        ensures
            t@ == (TaskView {
                period: Some(period),
                wcet: budget(program@) as u64,
                program: program@,
                ..self@
            }),
    {
        let mut t = self;
        t.period = Some(period);
        t.wcet = compute_budget(program.as_slice());
        t.program = program;
        t
    }

    /// A one-shot task, released once at startup.
    pub fn oneshot(self, program: Vec<Op>) -> (t: Task)
        requires
            budget(program@) <= u64::MAX,
        ensures
            t@ == (TaskView { period: None, wcet: budget(program@) as u64, program: program@, ..self@ }),
    {
        let mut t = self;
        t.period = None;
        t.wcet = compute_budget(program.as_slice());
        t.program = program;
        t
    }

    /// With a fixed-size stack, in bytes.
    pub fn with_stack(self, bytes: usize) -> (t: Task)
        ensures
            t@ == (TaskView { stack: Seq::new(bytes as nat, |i: int| 0u8), ..self@ }),
    {
        let mut t = self;
        t.stack = vec![0u8; bytes];
        assert(t.stack@ =~= Seq::new(bytes as nat, |i: int| 0u8));
        t
    }
}

/// In-place transitions of a task, used by the kernel.
impl Task {
    pub(crate) fn release(&mut self, now: u64)
        requires
            is_due(old(self)@, now) ==> {
                &&& old(self)@.jobs_released < u64::MAX
                &&& (old(self)@.period matches Some(p) ==> now + p <= u64::MAX
                    && old(self)@.next_release + p <= u64::MAX)
            },
        ensures
            final(self)@ == released(old(self)@, now),
    {
        if !self.job_active && self.next_release != u64::MAX && now >= self.next_release {
            self.state = TaskState::Ready;
            self.job_active = true;
            self.jobs_released = self.jobs_released + 1;
            self.pc = 0;
            self.compute_remaining = 0;
            self.blocked_on = None;
            self.missed_current = false;
            match self.period {
                Some(p) => {
                    self.deadline = now + p;
                    self.next_release = self.next_release + p;
                },
                None => {
                    self.deadline = u64::MAX;
                    self.next_release = u64::MAX;
                },
            }
        }
    }

    pub(crate) fn wake_if_due(&mut self, now: u64)
        ensures
            final(self)@ == slept(old(self)@, now),
    {
        if self.state == TaskState::Blocked && self.blocked_on == Some(BlockReason::Sleep)
            && now >= self.wake_at {
            self.state = TaskState::Ready;
            self.blocked_on = None;
        }
    }

    pub(crate) fn check_deadline(&mut self, now: u64) -> (missed: bool)
        requires
            misses(old(self)@, now) ==> old(self)@.deadlines_missed < u64::MAX,
        ensures
            missed == misses(old(self)@, now),
            final(self)@ == deadline_checked(old(self)@, now),
    {
        if self.job_active && !self.missed_current && self.deadline != u64::MAX && now >= self.deadline {
            self.deadlines_missed = self.deadlines_missed + 1;
            self.missed_current = true;
            true
        } else {
            false
        }
    }

    pub(crate) fn advance(&mut self)
        requires
            old(self).pc < usize::MAX,
        ensures
            final(self)@ == old(self)@.advanced(),
    {
        self.pc = self.pc + 1;
    }

    pub(crate) fn park(&mut self, reason: BlockReason)
        ensures
            final(self)@ == old(self)@.parked(reason),
    {
        self.state = TaskState::Blocked;
        self.blocked_on = Some(reason);
    }

    pub(crate) fn finish_job(&mut self)
        requires
            old(self).jobs_completed < u64::MAX,
        ensures
            final(self)@ == old(self)@.finished(),
    {
        let periodic = self.period.is_some();
        self.jobs_completed = self.jobs_completed + 1;
        self.job_active = false;
        self.pc = 0;
        self.compute_remaining = 0;
        if periodic {
            self.state = TaskState::Blocked;
            self.blocked_on = Some(BlockReason::WaitPeriod);
        } else {
            self.state = TaskState::Suspended;
            self.next_release = u64::MAX;
        }
    }

    pub(crate) fn wake(&mut self)
        ensures
            final(self)@ == old(self)@.woken_up(),
    {
        self.state = TaskState::Ready;
        self.blocked_on = None;
    }
}

} // verus!
