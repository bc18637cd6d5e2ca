use vstd::prelude::*;

verus! {

/// A periodic hardware timer counting down from a reload value.
pub struct Timer {
    reload: u64,
    counter: u64,
    fired: u64,
}

/// The state of a timer: its reload value, the clocks left before it wraps, and how
/// many times it has raised its interrupt.
pub struct TimerView {
    pub reload: u64,
    pub counter: u64,
    pub fired: u64,
}

impl View for Timer {
    type V = TimerView;

    closed spec fn view(&self) -> TimerView {
        TimerView { reload: self.reload, counter: self.counter, fired: self.fired }
    }
}

impl TimerView {
    /// The counter always lies in `1..=reload`.
    pub open spec fn wf(self) -> bool {
        1 <= self.counter <= self.reload
    }

    /// The timer as built from `reload`: a reload of zero is clamped to one.
    pub open spec fn initial(reload: u64) -> TimerView {
        let r = if reload == 0 { 1u64 } else { reload };
        TimerView { reload: r, counter: r, fired: 0 }
    }

    /// True when the next clock wraps the counter and raises the interrupt.
    pub open spec fn fires_next(self) -> bool {
        self.counter == 1
    }

    /// The timer after one clock.
    pub open spec fn clocked(self) -> TimerView {
        if self.counter == 1 {
            TimerView { reload: self.reload, counter: self.reload, fired: (self.fired + 1) as u64 }
        } else {
            TimerView { reload: self.reload, counter: (self.counter - 1) as u64, fired: self.fired }
        }
    }

    /// The timer after `n` clocks.
    pub open spec fn clocked_n(self, n: nat) -> TimerView
        decreases n,
    {
        if n == 0 {
            self
        } else {
            self.clocked_n((n - 1) as nat).clocked()
        }
    }
}

impl Timer {
    pub fn new(reload: u64) -> (t: Timer)
        ensures
            t@ == TimerView::initial(reload),
            t@.wf(),
    {
        let reload = if reload < 1 { 1 } else { reload };
        Timer { reload, counter: reload, fired: 0 }
    }

    /// Advance one clock. Returns `true` on the clock where the timer wraps and raises
    /// its interrupt.
    pub fn clock(&mut self) -> (fired: bool)
        requires
            old(self)@.wf(),
            old(self)@.fired < u64::MAX,
        ensures
            fired == old(self)@.fires_next(),
            final(self)@ == old(self)@.clocked(),
            final(self)@.wf(),
    {
        self.counter = self.counter - 1;
        if self.counter == 0 {
            self.counter = self.reload;
            self.fired = self.fired + 1;
            true
        } else {
            false
        }
    }

    pub fn interrupts_raised(&self) -> (n: u64)
        ensures
            n == self@.fired,
    {
        self.fired
    }

    pub fn reload(&self) -> (r: u64)
        ensures
            r == self@.reload,
    {
        self.reload
    }
}

/// A timer built with `reload` raises its interrupt exactly on every `reload`-th
/// clock: after `n` clocks it has fired `n / reload` times and has
/// `reload - n % reload` clocks left before the next wrap.
pub proof fn law_timer_fires_every_reload(reload: u64, n: nat)
    requires
        reload >= 1,
        n / (reload as nat) < u64::MAX,
    ensures
        TimerView::initial(reload).clocked_n(n).fired == n / (reload as nat),
        TimerView::initial(reload).clocked_n(n).counter == reload - n % (reload as nat),
        TimerView::initial(reload).clocked_n(n).reload == reload,
    decreases n,
{
    let r = reload as nat;
    if n == 0 {
        assert(0nat / r == 0) by (nonlinear_arith)
            requires
                r >= 1,
        ;
        assert(0nat % r == 0) by (nonlinear_arith)
            requires
                r >= 1,
        ;
    } else {
        let m = (n - 1) as nat;
        assert(m / r <= n / r) by (nonlinear_arith)
            requires
                m < n,
                r >= 1,
        ;
        law_timer_fires_every_reload(reload, m);
        if m % r == r - 1 {
            assert(n / r == m / r + 1 && n % r == 0) by (nonlinear_arith)
                requires
                    n == m + 1,
                    m % r == r - 1,
                    r >= 1,
            ;
        } else {
            assert(n / r == m / r && n % r == m % r + 1) by (nonlinear_arith)
                requires
                    n == m + 1,
                    m % r < r - 1,
                    r >= 1,
            ;
        }
    }
}

/// A timer built with any `reload` (zero is taken as one) fires on exactly the
/// clocks whose number is a multiple of its reload: the `n + 1`-th clock wraps it
/// exactly when `n + 1` is a multiple of the reload, and after `n` clocks it has
/// fired `n` divided by the reload times.
pub proof fn law_timer_wraps_on_multiples(reload: u64, n: nat)
    requires
        n / (TimerView::initial(reload).reload as nat) < u64::MAX,
    ensures
        ({
            let r = TimerView::initial(reload).reload as nat;
            let t = TimerView::initial(reload).clocked_n(n);
            &&& t.fired == n / r
            &&& (t.fires_next() <==> (n + 1) % r == 0)
        }),
{
    let r0 = TimerView::initial(reload).reload;
    assert(TimerView::initial(r0) == TimerView::initial(reload));
    law_timer_fires_every_reload(r0, n);
    let r = r0 as nat;
    let c = n % r;
    assert(c < r && (n + 1) % r == (if c + 1 == r { 0 } else { c + 1 })) by (nonlinear_arith)
        requires
            r >= 1,
            c == n % r,
    {
        vstd::arithmetic::div_mod::lemma_fundamental_div_mod(n as int, r as int);
        vstd::arithmetic::div_mod::lemma_mod_add_multiples_vanish((c + 1) as int, r as int);
    }
}

} // verus!
