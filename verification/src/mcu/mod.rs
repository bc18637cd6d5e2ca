//! The emulated microcontroller: memory, memory-mapped peripherals, an interrupt
//! controller, and a cycle counter.
use vstd::prelude::*;

pub mod gpio;
pub mod interrupt;
pub mod memory;
pub mod timer;
pub mod uart;

pub use gpio::{Gpio, LED_PIN, PIN_COUNT};
pub use interrupt::{InterruptController, InterruptView, Irq};
pub use memory::Memory;
pub use timer::{Timer, TimerView};
pub use uart::{Uart, UartView};

verus! {

/// Default RAM size for the emulated chip, in bytes.
pub const DEFAULT_RAM: usize = 64 * 1024;

/// The emulated chip.
pub struct Mcu {
    pub memory: Memory,
    pub gpio: Gpio,
    pub uart: Uart,
    pub timer: Timer,
    pub nvic: InterruptController,
    cycles: u64,
}

/// The whole state of the chip.
pub struct McuView {
    pub memory: Seq<u8>,
    pub gpio: Seq<bool>,
    pub uart: UartView,
    pub timer: TimerView,
    pub nvic: InterruptView,
    pub cycles: u64,
}

impl View for Mcu {
    type V = McuView;

    closed spec fn view(&self) -> McuView {
        McuView {
            memory: self.memory@,
            gpio: self.gpio@,
            uart: self.uart@,
            timer: self.timer@,
            nvic: self.nvic@,
            cycles: self.cycles,
        }
    }
}

impl McuView {
    /// A freshly built chip: `ram` zeroed bytes, every pin low, nothing sent on the
    /// UART, a timer reloading from `reload`, no interrupt pending or serviced, and
    /// no cycle run yet.
    pub open spec fn fresh(ram: usize, reload: u64) -> McuView {
        McuView {
            memory: Seq::new(ram as nat, |i: int| 0u8),
            gpio: gpio::all_low(),
            uart: uart::UartView { text: Seq::empty(), bytes_out: 0 },
            timer: TimerView::initial(reload),
            nvic: InterruptView { pending: Seq::empty(), serviced: 0 },
            cycles: 0,
        }
    }

    pub open spec fn wf(self) -> bool {
        self.timer.wf() && self.nvic.wf()
    }

    /// Room in the counters for one more cycle.
    pub open spec fn can_cycle(self) -> bool {
        self.cycles < u64::MAX && self.timer.fired < u64::MAX
    }

    /// The chip after one cycle: the timer is clocked and, when it wraps, the timer
    /// line is latched in the interrupt controller.
    pub open spec fn cycled(self) -> McuView {
        McuView {
            cycles: (self.cycles + 1) as u64,
            timer: self.timer.clocked(),
            nvic: if self.timer.fires_next() {
                self.nvic.raised(Irq::Timer)
            } else {
                self.nvic
            },
            ..self
        }
    }
}

impl Mcu {
    pub fn new(ram: usize, tick_reload: u64) -> (m: Mcu)
        ensures
            m@.memory == Seq::new(ram as nat, |i: int| 0u8),
            m@.gpio == gpio::all_low(),
            m@.uart.text == Seq::<char>::empty(),
            m@.uart.bytes_out == 0,
            m@.timer == TimerView::initial(tick_reload),
            m@.nvic.pending == Seq::<Irq>::empty(),
            m@.nvic.serviced == 0,
            m@.cycles == 0,
            m@ == McuView::fresh(ram, tick_reload),
            m@.wf(),
    {
        Mcu {
            memory: Memory::new(ram),
            gpio: Gpio::new(),
            uart: Uart::new(),
            timer: Timer::new(tick_reload),
            nvic: InterruptController::new(),
            cycles: 0,
        }
    }

    /// Advance the hardware one cycle. The timer may raise its interrupt, which is
    /// latched in the controller for the kernel to service.
    pub fn cycle(&mut self)
        requires
            old(self)@.wf(),
            old(self)@.can_cycle(),
        ensures
            final(self)@ == old(self)@.cycled(),
            final(self)@.wf(),
    {
        self.cycles = self.cycles + 1;
        if self.timer.clock() {
            self.nvic.raise(Irq::Timer);
        }
    }

    /// Drive a GPIO pin (see [`Gpio::set`]).
    pub fn drive_pin(&mut self, pin: usize, level: bool) -> (ok: bool)
        ensures
            ok == (pin < PIN_COUNT),
            final(self)@ == (McuView { gpio: gpio::pins_after_set(old(self)@.gpio, pin, level), ..old(self)@ }),
    {
        self.gpio.set(pin, level)
    }

    /// Flip a GPIO pin (see [`Gpio::toggle`]).
    pub fn toggle_pin(&mut self, pin: usize) -> (r: Option<bool>)
        ensures
            final(self)@ == (McuView { gpio: gpio::pins_after_toggle(old(self)@.gpio, pin), ..old(self)@ }),
            r == gpio::pin_level(final(self)@.gpio, pin),
    {
        self.gpio.toggle(pin)
    }

    /// Transmit `text` on the UART (see [`Uart::write`]).
    pub fn transmit(&mut self, text: &str)
        requires
            old(self)@.uart.bytes_out + uart::wire_len(text@) <= u64::MAX,
        ensures
            final(self)@ == (McuView { uart: old(self)@.uart.sent(text@), ..old(self)@ }),
    {
        self.uart.write(text)
    }

    /// Take the pending interrupt lines for servicing (see
    /// [`InterruptController::take_pending`]).
    pub fn service_interrupts(&mut self) -> (out: Vec<Irq>)
        requires
            old(self)@.wf(),
            old(self)@.nvic.serviced + old(self)@.nvic.pending.len() <= u64::MAX,
        ensures
            final(self)@ == (McuView { nvic: old(self)@.nvic.drained(), ..old(self)@ }),
            final(self)@.wf(),
            out@.len() == old(self)@.nvic.pending.len(),
            out@.to_set() == old(self)@.nvic.pending.to_set(),
            interrupt::in_service_order(out@),
    {
        self.nvic.take_pending()
    }

    pub fn cycles(&self) -> (n: u64)
        ensures
            n == self@.cycles,
    {
        self.cycles
    }

    /// The interrupts the timer has raised.
    pub fn timer_interrupts(&self) -> (n: u64)
        ensures
            n == self@.timer.fired,
    {
        self.timer.interrupts_raised()
    }

    /// The bytes the UART has put on the wire.
    pub fn uart_bytes_out(&self) -> (n: u64)
        ensures
            n == self@.uart.bytes_out,
    {
        self.uart.bytes_out()
    }
}

impl Default for Mcu {
    fn default() -> (m: Mcu)
        ensures
            m@.memory == Seq::new(DEFAULT_RAM as nat, |i: int| 0u8),
            m@.timer == TimerView::initial(1),
            m@.cycles == 0,
            m@.wf(),
    {
        Mcu::new(DEFAULT_RAM, 1)
    }
}

} // verus!
