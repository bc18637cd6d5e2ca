//! Emberchip: a deterministic RTOS simulator on a small emulated microcontroller.
//!
//! A teaching-accurate model, not firmware for a real chip: a preemptive
//! fixed-priority scheduler driven by a tick timer, interrupts and ISRs, mutexes
//! with priority inheritance, counting semaphores, message queues, and
//! memory-mapped peripherals (GPIO, UART, a timer). A run is a function of the
//! seed and the task set, down to the event timeline; the kernel's `step` and
//! `run` are specified as that function (`KernelView::stepped`,
//! `KernelView::run_for`), and the laws in `kernel::laws` and
//! `kernel::accounting` state what every run keeps.
use vstd::prelude::*;

pub mod kernel;
pub mod mcu;
pub mod rng;
pub mod schedulability;
pub mod stress;
pub mod text;
pub mod timeline;
pub mod workload;

pub use kernel::{
    BlockReason, Config, Event, Kernel, Mutex, Op, Priority, Queue, ReadyEntry, Semaphore, Task,
    TaskState, TickRecord,
};
pub use mcu::Mcu;
pub use rng::Rng;

verus! {

} // verus!
