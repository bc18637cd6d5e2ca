use vstd::prelude::*;

verus! {

/// Interrupt sources on the emulated chip, in vector-priority order.
#[derive(Clone, Copy, Debug, PartialEq, Eq, Structural, PartialOrd, Ord, Hash)]
pub enum Irq {
    /// System tick timer wrapped.
    Timer,
    /// UART finished a transmission.
    Uart,
    /// A GPIO pin changed and was configured to interrupt.
    Gpio(usize),
}

/// The service order of interrupt lines: timer, then UART, then GPIO lines by pin.
pub open spec fn irq_rank(irq: Irq) -> int {
    match irq {
        Irq::Timer => 0,
        Irq::Uart => 1,
        Irq::Gpio(pin) => 2 + pin,
    }
}

/// `irqs` is in strictly increasing service order.
pub open spec fn in_service_order(irqs: Seq<Irq>) -> bool {
    forall|i: int, j: int| 0 <= i < j < irqs.len() ==> irq_rank(irqs[i]) < irq_rank(irqs[j])
}

/// True when `a` is serviced before `b`.
pub fn irq_before(a: &Irq, b: &Irq) -> (r: bool)
    ensures
        r == (irq_rank(*a) < irq_rank(*b)),
{
    match (a, b) {
        (Irq::Timer, Irq::Timer) => false,
        (Irq::Timer, _) => true,
        (Irq::Uart, Irq::Gpio(_)) => true,
        (Irq::Uart, _) => false,
        (Irq::Gpio(x), Irq::Gpio(y)) => *x < *y,
        (Irq::Gpio(_), _) => false,
    }
}

/// Latches raised interrupt lines until the kernel takes them for servicing.
pub struct InterruptController {
    pending: Vec<Irq>,
    serviced: u64,
}

/// The lines waiting for service and the number serviced so far.
pub struct InterruptView {
    pub pending: Seq<Irq>,
    pub serviced: u64,
}

impl View for InterruptController {
    type V = InterruptView;

    closed spec fn view(&self) -> InterruptView {
        InterruptView { pending: self.pending@, serviced: self.serviced }
    }
}

impl InterruptView {
    /// A line is latched at most once.
    pub open spec fn wf(self) -> bool {
        self.pending.no_duplicates()
    }

    /// The controller after `irq` is raised: latched unless already pending.
    pub open spec fn raised(self, irq: Irq) -> InterruptView {
        if self.pending.contains(irq) {
            self
        } else {
            InterruptView { pending: self.pending.push(irq), serviced: self.serviced }
        }
    }

    /// The controller after its pending lines are taken for servicing.
    pub open spec fn drained(self) -> InterruptView {
        InterruptView {
            pending: Seq::empty(),
            serviced: (self.serviced + self.pending.len()) as u64,
        }
    }
}

impl InterruptController {
    pub fn new() -> (ic: InterruptController)
        ensures
            ic@.pending == Seq::<Irq>::empty(),
            ic@.serviced == 0,
            ic@.wf(),
    {
        InterruptController { pending: Vec::new(), serviced: 0 }
    }

    fn contains(&self, irq: Irq) -> (r: bool)
        ensures
            r == self@.pending.contains(irq),
    {
        let mut i: usize = 0;
        while i < self.pending.len()
            invariant
                i <= self.pending.len(),
                forall|k: int| 0 <= k < i ==> self.pending@[k] != irq,
            decreases self.pending.len() - i,
        {
            if self.pending[i] == irq {
                return true;
            }
            i = i + 1;
        }
        false
    }

    /// Latch `irq` as pending; a line already pending is not latched twice.
    pub fn raise(&mut self, irq: Irq)
        requires
            old(self)@.wf(),
        ensures
            final(self)@ == old(self)@.raised(irq),
            final(self)@.wf(),
    {
        if !self.contains(irq) {
            self.pending.push(irq);
        }
    }

    pub fn is_pending(&self, irq: Irq) -> (r: bool)
        ensures
            r == self@.pending.contains(irq),
    {
        self.contains(irq)
    }

    /// Take the pending interrupts for servicing, in service order (timer, then UART,
    /// then GPIO lines by pin). Nothing stays pending.
    pub fn take_pending(&mut self) -> (out: Vec<Irq>)
        requires
            old(self)@.wf(),
            old(self)@.serviced + old(self)@.pending.len() <= u64::MAX,
        ensures
            final(self)@ == old(self)@.drained(),
            final(self)@.wf(),
            out@.len() == old(self)@.pending.len(),
            out@.to_set() == old(self)@.pending.to_set(),
            in_service_order(out@),
    {
        let mut out: Vec<Irq> = Vec::new();
        let mut i: usize = 0;
        while i < self.pending.len()
            invariant
                i <= self.pending.len(),
                self.pending@.no_duplicates(),
                out@.len() == i,
                out@.to_set() == self.pending@.take(i as int).to_set(),
                in_service_order(out@),
            decreases self.pending.len() - i,
        {
            let x = self.pending[i];
            let mut pos: usize = 0;
            while pos < out.len() && irq_before(&out[pos], &x)
                invariant
                    pos <= out.len(),
                    forall|k: int| 0 <= k < pos ==> irq_rank(#[trigger] out@[k]) < irq_rank(x),
                decreases out.len() - pos,
            {
                pos = pos + 1;
            }
            proof {
                assert(!self.pending@.take(i as int).contains(x)) by {
                    if self.pending@.take(i as int).contains(x) {
                        let k = choose|k: int|
                            0 <= k < i && #[trigger] self.pending@.take(i as int)[k] == x;
                        assert(self.pending@[k] == self.pending@[i as int]);
                    }
                }
                assert(!out@.to_set().contains(x));
                if pos < out.len() {
                    assert(irq_rank(out@[pos as int]) != irq_rank(x)) by {
                        if irq_rank(out@[pos as int]) == irq_rank(x) {
                            lemma_rank_injective(out@[pos as int], x);
                            assert(out@.contains(x));
                        }
                    }
                }
                lemma_insert_to_set(out@, pos as int, x);
                assert(self.pending@.take(i + 1) =~= self.pending@.take(i as int).push(x));
                self.pending@.take(i as int).lemma_push_to_set_commute(x);
            }
            out.insert(pos, x);
            i = i + 1;
        }
        proof {
            assert(self.pending@.take(self.pending@.len() as int) =~= self.pending@);
        }
        self.serviced = self.serviced + out.len() as u64;
        self.pending = Vec::new();
        out
    }

    pub fn serviced(&self) -> (n: u64)
        ensures
            n == self@.serviced,
    {
        self.serviced
    }
}

impl Default for InterruptController {
    fn default() -> (ic: InterruptController)
        ensures
            ic@.pending == Seq::<Irq>::empty(),
            ic@.serviced == 0,
    {
        InterruptController::new()
    }
}

/// Inserting an element anywhere adds exactly that element to the set of elements.
pub proof fn lemma_insert_to_set<A>(s: Seq<A>, pos: int, x: A)
    requires
        0 <= pos <= s.len(),
    ensures
        s.insert(pos, x).to_set() == s.to_set().insert(x),
{
    s.insert_ensures(pos, x);
    let t = s.insert(pos, x);
    assert forall|y: A| t.to_set().contains(y) implies s.to_set().insert(x).contains(y) by {
        let k = choose|k: int| 0 <= k < t.len() && t[k] == y;
        if k < pos {
            assert(s[k] == y);
        } else if k > pos {
            assert(s[k - 1] == y);
        }
    }
    assert forall|y: A| s.to_set().insert(x).contains(y) implies t.to_set().contains(y) by {
        if y == x {
            assert(t[pos] == x);
        } else {
            let k = choose|k: int| 0 <= k < s.len() && s[k] == y;
            if k < pos {
                assert(t[k] == y);
            } else {
                assert(t[k + 1] == y);
            }
        }
    }
    assert(t.to_set() =~= s.to_set().insert(x));
}

/// Distinct lines have distinct service ranks.
pub proof fn lemma_rank_injective(a: Irq, b: Irq)
    requires
        irq_rank(a) == irq_rank(b),
    ensures
        a == b,
{
}

/// Lines taken for servicing come out exactly once each, in service order: any two
/// orderings of the same pending set drain identically.
pub proof fn law_drain_order_unique(a: Seq<Irq>, b: Seq<Irq>)
    requires
        in_service_order(a),
        in_service_order(b),
        a.to_set() == b.to_set(),
    ensures
        a == b,
    decreases a.len() + b.len(),
{
    if a.len() == 0 {
        if b.len() > 0 {
            assert(b.to_set().contains(b[0]));
        }
        assert(a =~= b);
    } else if b.len() == 0 {
        assert(a.to_set().contains(a[0]));
    } else {
        // The first element of each is the minimum-rank element of the common set.
        assert(b.to_set().contains(a[0]));
        assert(a.to_set().contains(b[0]));
        let ia = choose|k: int| 0 <= k < b.len() && b[k] == a[0];
        let ib = choose|k: int| 0 <= k < a.len() && a[k] == b[0];
        if ia > 0 {
            assert(irq_rank(b[0]) < irq_rank(b[ia]));
        }
        if ib > 0 {
            assert(irq_rank(a[0]) < irq_rank(a[ib]));
        }
        assert(a[0] == b[0]);
        let a1 = a.drop_first();
        let b1 = b.drop_first();
        assert(a1.to_set() =~= b1.to_set()) by {
            assert forall|x: Irq| a1.to_set().contains(x) implies b1.to_set().contains(x) by {
                let k = choose|k: int| 0 <= k < a1.len() && a1[k] == x;
                assert(a.to_set().contains(x));
                let j = choose|j: int| 0 <= j < b.len() && b[j] == x;
                assert(irq_rank(a[0]) < irq_rank(a[k + 1]));
                if j == 0 {
                    assert(false);
                }
                assert(b1[j - 1] == x);
            }
            assert forall|x: Irq| b1.to_set().contains(x) implies a1.to_set().contains(x) by {
                let k = choose|k: int| 0 <= k < b1.len() && b1[k] == x;
                assert(b.to_set().contains(x));
                let j = choose|j: int| 0 <= j < a.len() && a[j] == x;
                assert(irq_rank(b[0]) < irq_rank(b[k + 1]));
                if j == 0 {
                    assert(false);
                }
                assert(a1[j - 1] == x);
            }
        }
        law_drain_order_unique(a1, b1);
        assert(a1.len() == b1.len());
        assert(a =~= b) by {
            assert forall|k: int| 0 <= k < a.len() implies a[k] == b[k] by {
                if k > 0 {
                    assert(a[k] == a1[k - 1]);
                    assert(b1[k - 1] == b[k]);
                }
            }
        }
    }
}

} // verus!
