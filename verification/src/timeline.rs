//! Human-readable rendering of the event log. The scheduler timeline, GPIO and
//! UART activity, and every mutex and inheritance event are printed from the same
//! log the determinism checks compare, so what you read is exactly what the kernel
//! did.
use vstd::prelude::*;
use vstd::string::StringExecFns;
use vstd::string::StrSliceExecFns;
use crate::kernel::{view_tasks, Event, Kernel, Task, TaskView};
use crate::text::{decimal, pad_left, pad_right, push_decimal, push_decimal_right, push_left, push_right};

verus! {

/// The name of task `id`, or `?` for an id with no task.
pub open spec fn name_of(ts: Seq<TaskView>, id: usize) -> Seq<char> {
    if id < ts.len() {
        ts[id as int].name
    } else {
        "?"@
    }
}

/// `name#id`, as the timeline names a task.
pub open spec fn tag(ts: Seq<TaskView>, id: usize) -> Seq<char> {
    name_of(ts, id) + "#"@ + decimal(id as nat)
}

/// One character of UART text as the timeline shows it: a newline as `\\n`.
pub open spec fn shown_char(c: char) -> Seq<char> {
    if c == '\n' {
        "\\n"@
    } else {
        seq![c]
    }
}

/// UART text as the timeline shows it, newlines escaped.
pub open spec fn shown(s: Seq<char>) -> Seq<char>
    decreases s.len(),
{
    if s.len() == 0 {
        Seq::empty()
    } else {
        shown(s.drop_last()) + shown_char(s.last())
    }
}

/// The GPIO level as the timeline shows it, with the LED's state for its pin.
pub open spec fn level_text(pin: usize, level: bool) -> Seq<char> {
    (if level {
        "HIGH"@
    } else {
        "LOW"@
    }) + if pin == crate::mcu::LED_PIN {
        if level {
            " (LED on)"@
        } else {
            " (LED off)"@
        }
    } else {
        ""@
    }
}

/// The timeline line of one event.
pub open spec fn event_text(ts: Seq<TaskView>, e: Event) -> Seq<char> {
    match e {
        Event::Tick(t) => "\ntick "@ + pad_left(decimal(t as nat), 4) + " |"@,
        Event::Run { task } => "\n         | RUN "@ + tag(ts, task),
        Event::Idle => "\n         | IDLE"@,
        Event::Release { task } => "\n         | release "@ + tag(ts, task),
        Event::Preempt { preempted, by } => "\n         | PREEMPT "@ + tag(ts, preempted) + " by "@ + tag(ts, by),
        Event::Gpio { task, pin, level } => "\n         | gpio["@ + decimal(pin as nat) + "]="@ + level_text(pin, level)
            + " by "@ + name_of(ts, task),
        Event::Uart { task, text } => "\n         | uart<= \""@ + shown(text@) + "\" by "@ + name_of(ts, task),
        Event::Lock { task, mutex } => "\n         | lock m"@ + decimal(mutex as nat) + " by "@ + tag(ts, task),
        Event::Unlock { task, mutex } => "\n         | unlock m"@ + decimal(mutex as nat) + " by "@ + tag(ts, task),
        Event::BlockOnMutex { task, mutex, owner } => "\n         | BLOCK "@ + tag(ts, task) + " on m"@ + decimal(
            mutex as nat,
        ) + " held by "@ + tag(ts, owner),
        Event::Inherit { holder, boosted_to, waiter } => "\n         | INHERIT "@ + tag(ts, holder)
            + " boosted to prio "@ + decimal(boosted_to as nat) + " (waiter "@ + tag(ts, waiter) + ")"@,
        Event::Restore { holder, to } => "\n         | restore "@ + tag(ts, holder) + " to prio "@ + decimal(
            to as nat,
        ),
        Event::SemWait { task, sem } => "\n         | sem"@ + decimal(sem as nat) + " wait by "@ + tag(ts, task),
        Event::SemSignal { task, sem } => "\n         | sem"@ + decimal(sem as nat) + " signal by "@ + tag(ts, task),
        Event::SemBlock { task, sem } => "\n         | BLOCK "@ + tag(ts, task) + " on sem"@ + decimal(sem as nat),
        Event::QueueSend { task, queue, value } => "\n         | q"@ + decimal(queue as nat) + " send "@ + decimal(
            value as nat,
        ) + " by "@ + tag(ts, task),
        Event::QueueRecv { task, queue, value } => "\n         | q"@ + decimal(queue as nat) + " recv "@ + decimal(
            value as nat,
        ) + " by "@ + tag(ts, task),
        Event::QueueBlock { task, queue } => "\n         | BLOCK "@ + tag(ts, task) + " on q"@ + decimal(queue as nat),
        Event::Sleep { task, until } => "\n         | sleep "@ + tag(ts, task) + " until "@ + decimal(until as nat),
        Event::Complete { task } => "\n         | done "@ + tag(ts, task),
        Event::DeadlineMiss { task, deadline } => "\n         | DEADLINE MISS "@ + tag(ts, task) + " (was due "@
            + decimal(deadline as nat) + ")"@,
    }
}

/// The timeline lines of the first `n` events of `log`.
pub open spec fn events_text(ts: Seq<TaskView>, log: Seq<Event>, n: int) -> Seq<char>
    decreases n,
{
    if n <= 0 {
        Seq::empty()
    } else {
        events_text(ts, log, n - 1) + event_text(ts, log[n - 1])
    }
}

/// The whole timeline of a kernel: one line per event, then a final newline.
pub open spec fn rendered(k: crate::kernel::KernelView) -> Seq<char> {
    events_text(k.tasks, k.log, k.log.len() as int) + "\n"@
}

/// Append `name`, the name of task `id`.
fn push_name(out: &mut String, tasks: &Vec<Task>, id: usize)
    ensures
        final(out)@ == old(out)@ + name_of(view_tasks(tasks@), id),
{
    if id < tasks.len() {
        out.append(tasks[id].name.as_str());
    } else {
        out.append("?");
    }
}

/// Append `name#id` for task `id`.
fn push_tag(out: &mut String, tasks: &Vec<Task>, id: usize)
    ensures
        final(out)@ == old(out)@ + tag(view_tasks(tasks@), id),
{
    push_name(out, tasks, id);
    out.append("#");
    push_decimal(out, id as u64);
    assert(final(out)@ =~= old(out)@ + tag(view_tasks(tasks@), id));
}

/// Append UART text with its newlines escaped.
fn push_shown(out: &mut String, text: &str)
    ensures
        final(out)@ == old(out)@ + shown(text@),
{
    let n = text.unicode_len();
    let mut i: usize = 0;
    while i < n
        invariant
            i <= n,
            n == text@.len(),
            out@ == old(out)@ + shown(text@.take(i as int)),
        decreases n - i,
    {
        let c = text.get_char(i);
        proof {
            assert(text@.take(i + 1).drop_last() =~= text@.take(i as int));
            assert(text@.take(i + 1).last() == c);
        }
        if c == '\n' {
            out.append("\\n");
        } else {
            let one = text.substring_char(i, i + 1);
            assert(one@ =~= seq![c]);
            out.append(one);
        }
        i = i + 1;
        assert(out@ =~= old(out)@ + shown(text@.take(i as int)));
    }
    assert(text@.take(n as int) =~= text@);
}

/// Append the timeline line of one event.
fn push_event(out: &mut String, tasks: &Vec<Task>, e: &Event)
    ensures
        final(out)@ == old(out)@ + event_text(view_tasks(tasks@), *e),
{
    let ghost ts = view_tasks(tasks@);
    match e {
        Event::Tick(t) => {
            out.append("\ntick ");
            push_decimal_right(out, *t, 4);
            out.append(" |");
        },
        Event::Run { task } => {
            out.append("\n         | RUN ");
            push_tag(out, tasks, *task);
        },
        Event::Idle => {
            out.append("\n         | IDLE");
        },
        Event::Release { task } => {
            out.append("\n         | release ");
            push_tag(out, tasks, *task);
        },
        Event::Preempt { preempted, by } => {
            out.append("\n         | PREEMPT ");
            push_tag(out, tasks, *preempted);
            out.append(" by ");
            push_tag(out, tasks, *by);
        },
        Event::Gpio { task, pin, level } => {
            out.append("\n         | gpio[");
            push_decimal(out, *pin as u64);
            out.append("]=");
            if *level {
                out.append("HIGH");
            } else {
                out.append("LOW");
            }
            if *pin == crate::mcu::LED_PIN {
                if *level {
                    out.append(" (LED on)");
                } else {
                    out.append(" (LED off)");
                }
            } else {
                out.append("");
            }
            out.append(" by ");
            push_name(out, tasks, *task);
        },
        Event::Uart { task, text } => {
            out.append("\n         | uart<= \"");
            push_shown(out, text.as_str());
            out.append("\" by ");
            push_name(out, tasks, *task);
        },
        Event::Lock { task, mutex } => {
            out.append("\n         | lock m");
            push_decimal(out, *mutex as u64);
            out.append(" by ");
            push_tag(out, tasks, *task);
        },
        Event::Unlock { task, mutex } => {
            out.append("\n         | unlock m");
            push_decimal(out, *mutex as u64);
            out.append(" by ");
            push_tag(out, tasks, *task);
        },
        Event::BlockOnMutex { task, mutex, owner } => {
            out.append("\n         | BLOCK ");
            push_tag(out, tasks, *task);
            out.append(" on m");
            push_decimal(out, *mutex as u64);
            out.append(" held by ");
            push_tag(out, tasks, *owner);
        },
        Event::Inherit { holder, boosted_to, waiter } => {
            out.append("\n         | INHERIT ");
            push_tag(out, tasks, *holder);
            out.append(" boosted to prio ");
            push_decimal(out, *boosted_to as u64);
            out.append(" (waiter ");
            push_tag(out, tasks, *waiter);
            out.append(")");
        },
        Event::Restore { holder, to } => {
            out.append("\n         | restore ");
            push_tag(out, tasks, *holder);
            out.append(" to prio ");
            push_decimal(out, *to as u64);
        },
        Event::SemWait { task, sem } => {
            out.append("\n         | sem");
            push_decimal(out, *sem as u64);
            out.append(" wait by ");
            push_tag(out, tasks, *task);
        },
        Event::SemSignal { task, sem } => {
            out.append("\n         | sem");
            push_decimal(out, *sem as u64);
            out.append(" signal by ");
            push_tag(out, tasks, *task);
        },
        Event::SemBlock { task, sem } => {
            out.append("\n         | BLOCK ");
            push_tag(out, tasks, *task);
            out.append(" on sem");
            push_decimal(out, *sem as u64);
        },
        Event::QueueSend { task, queue, value } => {
            out.append("\n         | q");
            push_decimal(out, *queue as u64);
            out.append(" send ");
            push_decimal(out, *value as u64);
            out.append(" by ");
            push_tag(out, tasks, *task);
        },
        Event::QueueRecv { task, queue, value } => {
            out.append("\n         | q");
            push_decimal(out, *queue as u64);
            out.append(" recv ");
            push_decimal(out, *value as u64);
            out.append(" by ");
            push_tag(out, tasks, *task);
        },
        Event::QueueBlock { task, queue } => {
            out.append("\n         | BLOCK ");
            push_tag(out, tasks, *task);
            out.append(" on q");
            push_decimal(out, *queue as u64);
        },
        Event::Sleep { task, until } => {
            out.append("\n         | sleep ");
            push_tag(out, tasks, *task);
            out.append(" until ");
            push_decimal(out, *until);
        },
        Event::Complete { task } => {
            out.append("\n         | done ");
            push_tag(out, tasks, *task);
        },
        Event::DeadlineMiss { task, deadline } => {
            out.append("\n         | DEADLINE MISS ");
            push_tag(out, tasks, *task);
            out.append(" (was due ");
            push_decimal(out, *deadline);
            out.append(")");
        },
    }
    assert(final(out)@ =~= old(out)@ + event_text(ts, *e));
}

/// Render the full event log as an indented, tick-by-tick timeline.
pub fn render(kernel: &Kernel) -> (s: String)
    ensures
        s@ == rendered(kernel@),
{
    let tasks = kernel.task_list();
    let log = kernel.event_log();
    let mut out = String::new();
    let mut i: usize = 0;
    while i < log.len()
        invariant
            i <= log.len(),
            log@ == kernel@.log,
            view_tasks(tasks@) == kernel@.tasks,
            out@ == events_text(kernel@.tasks, kernel@.log, i as int),
        decreases log.len() - i,
    {
        push_event(&mut out, tasks, &log[i]);
        i = i + 1;
    }
    out.append("\n");
    out
}

/// A task's period as the summary shows it: `once` for a one-shot task.
pub open spec fn period_text(period: Option<u64>) -> Seq<char> {
    match period {
        Some(p) => decimal(p as nat),
        None => "once"@,
    }
}

/// The first columns of a task's summary row: id, name, priority and period.
pub open spec fn row_head(t: TaskView) -> Seq<char> {
    "  "@ + pad_left(decimal(t.id as nat), 2) + "  "@ + pad_right(t.name, 10) + "  "@ + pad_left(
        decimal(t.base_priority as nat),
        4,
    ) + "  "@ + pad_left(period_text(t.period), 6)
}

/// The last columns of a task's summary row: WCET, jobs released, completed and
/// late, and CPU ticks.
pub open spec fn row_tail(t: TaskView) -> Seq<char> {
    "  "@ + pad_left(decimal(t.wcet as nat), 4) + "  "@ + pad_left(decimal(t.jobs_released as nat), 4) + "  "@
        + pad_left(decimal(t.jobs_completed as nat), 4) + "  "@ + pad_left(decimal(t.deadlines_missed as nat), 6)
        + "  "@ + pad_left(decimal(t.cpu_ticks as nat), 4) + "\n"@
}

/// A task's row of the summary table.
pub open spec fn task_row(t: TaskView) -> Seq<char> {
    row_head(t) + row_tail(t)
}

/// The rows of the first `n` tasks.
pub open spec fn task_rows(ts: Seq<TaskView>, n: int) -> Seq<char>
    decreases n,
{
    if n <= 0 {
        Seq::empty()
    } else {
        task_rows(ts, n - 1) + task_row(ts[n - 1])
    }
}

/// The summary of a kernel: a row per task, then the run's totals.
pub open spec fn summarized(k: crate::kernel::KernelView) -> Seq<char> {
    "\ntask summary\n"@ + "  id  name        prio  period  wcet  runs  done  missed  cpu\n"@ + task_rows(
        k.tasks,
        k.tasks.len() as int,
    ) + "\nticks "@ + decimal(k.now as nat) + "  idle "@ + decimal(k.idle_ticks as nat) + "  timer irqs "@
        + decimal(k.mcu.timer.fired as nat) + "  uart bytes "@ + decimal(k.mcu.uart.bytes_out as nat)
        + "  invariant violations "@ + decimal(k.invariant_violations as nat) + "  deadline misses "@ + decimal(
        crate::kernel::model::total_misses(k.tasks, k.tasks.len() as int),
    ) + "\n"@
}

fn push_row_head(out: &mut String, t: &Task)
    ensures
        final(out)@ == old(out)@ + row_head(t@),
{
    out.append("  ");
    push_decimal_right(out, t.id as u64, 2);
    out.append("  ");
    push_left(out, t.name.as_str(), 10);
    out.append("  ");
    push_decimal_right(out, t.base_priority as u64, 4);
    out.append("  ");
    match t.period {
        Some(p) => {
            push_decimal_right(out, p, 6);
        },
        None => {
            push_right(out, "once", 6);
        },
    }
    assert(final(out)@ =~= old(out)@ + row_head(t@));
}

fn push_row_tail(out: &mut String, t: &Task)
    ensures
        final(out)@ == old(out)@ + row_tail(t@),
{
    out.append("  ");
    push_decimal_right(out, t.wcet, 4);
    out.append("  ");
    push_decimal_right(out, t.jobs_released, 4);
    out.append("  ");
    push_decimal_right(out, t.jobs_completed, 4);
    out.append("  ");
    push_decimal_right(out, t.deadlines_missed, 6);
    out.append("  ");
    push_decimal_right(out, t.cpu_ticks, 4);
    out.append("\n");
    assert(final(out)@ =~= old(out)@ + row_tail(t@));
}

/// Append a task's row of the summary table.
fn push_task_row(out: &mut String, t: &Task)
    ensures
        final(out)@ == old(out)@ + task_row(t@),
{
    push_row_head(out, t);
    push_row_tail(out, t);
    assert(final(out)@ =~= old(out)@ + task_row(t@));
}

/// A compact per-task summary printed after a run.
pub fn summary(kernel: &Kernel) -> (s: String)
    requires
        crate::kernel::model::total_misses(kernel@.tasks, kernel@.tasks.len() as int) <= u64::MAX,
    ensures
        s@ == summarized(kernel@),
{
    let tasks = kernel.task_list();
    let mut out = String::from_str("\ntask summary\n");
    out.append("  id  name        prio  period  wcet  runs  done  missed  cpu\n");
    let ghost head = out@;
    let mut i: usize = 0;
    while i < tasks.len()
        invariant
            i <= tasks.len(),
            view_tasks(tasks@) == kernel@.tasks,
            out@ == head + task_rows(kernel@.tasks, i as int),
        decreases tasks.len() - i,
    {
        assert(kernel@.tasks[i as int] == tasks@[i as int]@);
        push_task_row(&mut out, &tasks[i]);
        assert(out@ =~= head + task_rows(kernel@.tasks, (i + 1) as int));
        i = i + 1;
    }
    out.append("\nticks ");
    push_decimal(&mut out, kernel.now());
    out.append("  idle ");
    push_decimal(&mut out, kernel.idle_ticks());
    out.append("  timer irqs ");
    push_decimal(&mut out, kernel.timer_interrupts());
    out.append("  uart bytes ");
    push_decimal(&mut out, kernel.uart_bytes_out());
    out.append("  invariant violations ");
    push_decimal(&mut out, kernel.invariant_violations());
    out.append("  deadline misses ");
    push_decimal(&mut out, kernel.total_deadline_misses());
    out.append("\n");
    assert(out@ =~= summarized(kernel@));
    out
}

/// A preemption is told preempted first: its line is the `PREEMPT` marker, the tag
/// (`name#id`) of the task that lost the CPU, then ` by ` and the tag of the task
/// that took it. So the text after the marker starts with the preempted task's tag
/// and ends with the preempting task's.
pub proof fn law_preempt_names_the_preempted_first(ts: Seq<TaskView>, preempted: usize, by: usize)
    ensures
        ({
            let text = event_text(ts, Event::Preempt { preempted, by });
            let marker = "\n         | PREEMPT "@;
            &&& text == marker + tag(ts, preempted) + " by "@ + tag(ts, by)
            &&& text.take((marker.len() + tag(ts, preempted).len()) as int) == marker + tag(ts, preempted)
            &&& text.skip(text.len() - tag(ts, by).len()) == tag(ts, by)
            &&& tag(ts, preempted) == name_of(ts, preempted) + "#"@ + decimal(preempted as nat)
        }),
{
    let text = event_text(ts, Event::Preempt { preempted, by });
    let marker = "\n         | PREEMPT "@;
    assert(text.take((marker.len() + tag(ts, preempted).len()) as int) =~= marker + tag(ts, preempted));
    assert(text.skip(text.len() - tag(ts, by).len()) =~= tag(ts, by));
}

/// A summary row reads its columns in the header's order: after the WCET come the
/// jobs released (`runs`), then the jobs completed (`done`), then the jobs that
/// missed their deadline and the CPU ticks used, each right-aligned.
pub proof fn law_row_columns_in_order(t: TaskView)
    ensures
        ({
            let wcet = "  "@ + pad_left(decimal(t.wcet as nat), 4) + "  "@;
            let runs = pad_left(decimal(t.jobs_released as nat), 4);
            let done = pad_left(decimal(t.jobs_completed as nat), 4);
            let missed = pad_left(decimal(t.deadlines_missed as nat), 6);
            let cpu = pad_left(decimal(t.cpu_ticks as nat), 4);
            &&& row_tail(t) == wcet + runs + "  "@ + done + "  "@ + missed + "  "@ + cpu + "\n"@
            &&& row_tail(t).subrange(wcet.len() as int, (wcet.len() + runs.len()) as int) == runs
            &&& row_tail(t).subrange((wcet.len() + runs.len() + 2) as int, (wcet.len() + runs.len() + 2 + done.len()) as int)
                == done
            &&& task_row(t) == row_head(t) + row_tail(t)
        }),
{
    let wcet = "  "@ + pad_left(decimal(t.wcet as nat), 4) + "  "@;
    let runs = pad_left(decimal(t.jobs_released as nat), 4);
    let done = pad_left(decimal(t.jobs_completed as nat), 4);
    let missed = pad_left(decimal(t.deadlines_missed as nat), 6);
    let cpu = pad_left(decimal(t.cpu_ticks as nat), 4);
    let rest = "  "@ + missed + "  "@ + cpu + "\n"@;
    let r = row_tail(t);
    assert(r =~= wcet + runs + "  "@ + done + rest);
    reveal_strlit("  ");
    assert(r.subrange(wcet.len() as int, (wcet.len() + runs.len()) as int) =~= runs);
    assert(r.subrange((wcet.len() + runs.len() + 2) as int, (wcet.len() + runs.len() + 2 + done.len()) as int) =~= done);
}

} // verus!
