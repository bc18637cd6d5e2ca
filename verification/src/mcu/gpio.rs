use vstd::prelude::*;

verus! {

/// Number of pins on the GPIO port.
pub const PIN_COUNT: usize = 8;

/// The pin wired to the on-board LED.
pub const LED_PIN: usize = 0;

/// A memory-mapped GPIO port of boolean pins.
pub struct Gpio {
    pins: [bool; PIN_COUNT],
}

impl View for Gpio {
    type V = Seq<bool>;

    closed spec fn view(&self) -> Seq<bool> {
        self.pins@
    }
}

/// All pins low.
pub open spec fn all_low() -> Seq<bool> {
    Seq::new(PIN_COUNT as nat, |i: int| false)
}

/// The pin levels after driving `pin` to `level`; an absent pin changes nothing.
pub open spec fn pins_after_set(pins: Seq<bool>, pin: usize, level: bool) -> Seq<bool> {
    if pin < pins.len() {
        pins.update(pin as int, level)
    } else {
        pins
    }
}

/// The pin levels after flipping `pin`; an absent pin changes nothing.
pub open spec fn pins_after_toggle(pins: Seq<bool>, pin: usize) -> Seq<bool> {
    if pin < pins.len() {
        pins.update(pin as int, !pins[pin as int])
    } else {
        pins
    }
}

/// The level of `pin`, if the pin exists.
pub open spec fn pin_level(pins: Seq<bool>, pin: usize) -> Option<bool> {
    if pin < pins.len() {
        Some(pins[pin as int])
    } else {
        None
    }
}

impl Gpio {
    /// Every port has exactly `PIN_COUNT` pins.
    pub proof fn lemma_pin_count(&self)
        ensures
            self@.len() == PIN_COUNT,
    {
    }

    pub fn new() -> (g: Gpio)
        ensures
            g@ == all_low(),
    {
        let g = Gpio { pins: [false, false, false, false, false, false, false, false] };
        assert(g@ =~= all_low());
        g
    }

    pub fn get(&self, pin: usize) -> (r: Option<bool>)
        ensures
            r == pin_level(self@, pin),
    {
        if pin < PIN_COUNT {
            Some(self.pins[pin])
        } else {
            None
        }
    }

    /// Drive a pin. Returns `false` (and changes nothing) if the pin does not exist.
    pub fn set(&mut self, pin: usize, level: bool) -> (ok: bool)
        ensures
            ok == (pin < PIN_COUNT),
            final(self)@ == pins_after_set(old(self)@, pin, level),
    {
        if pin < PIN_COUNT {
            self.pins[pin] = level;
            true
        } else {
            false
        }
    }

    /// Flip a pin and return the new level. `None` if the pin does not exist.
    pub fn toggle(&mut self, pin: usize) -> (r: Option<bool>)
        ensures
            final(self)@ == pins_after_toggle(old(self)@, pin),
            r == pin_level(final(self)@, pin),
    {
        if pin < PIN_COUNT {
            let level = !self.pins[pin];
            self.pins[pin] = level;
            Some(level)
        } else {
            None
        }
    }

    /// The level of the LED pin.
    pub fn led(&self) -> (on: bool)
        ensures
            on == self@[LED_PIN as int],
    {
        self.pins[LED_PIN]
    }
}

impl Default for Gpio {
    fn default() -> (g: Gpio)
        ensures
            g@ == all_low(),
    {
        Gpio::new()
    }
}

/// Flipping a pin twice leaves the port as it was.
pub proof fn law_toggle_twice(pins: Seq<bool>, pin: usize)
    ensures
        pins_after_toggle(pins_after_toggle(pins, pin), pin) == pins,
{
    assert(pins_after_toggle(pins_after_toggle(pins, pin), pin) =~= pins);
}

/// Reading a pin after driving it gives the driven level; other pins keep theirs.
pub proof fn law_set_then_get(pins: Seq<bool>, pin: usize, level: bool, other: usize)
    requires
        pin < pins.len(),
        other != pin,
    ensures
        pin_level(pins_after_set(pins, pin, level), pin) == Some(level),
        pin_level(pins_after_set(pins, pin, level), other) == pin_level(pins, other),
{
}

} // verus!
