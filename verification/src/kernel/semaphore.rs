//! A counting semaphore. A signal either hands a unit straight to the preferred
//! waiter or increments the count, saturating at the maximum.
use vstd::prelude::*;
use crate::kernel::select::{choice, choose_best, list_contains, ranks_from_fn, ranks_from_table, ranks_of};

verus! {

#[derive(Clone, Debug)]
pub struct Semaphore {
    count: u32,
    max: u32,
    pub waiters: Vec<usize>,
}

/// The units available, the saturation limit, and the tasks waiting.
pub struct SemaphoreView {
    pub count: u32,
    pub max: u32,
    pub waiters: Seq<usize>,
}

impl View for Semaphore {
    type V = SemaphoreView;

    closed spec fn view(&self) -> SemaphoreView {
        SemaphoreView { count: self.count, max: self.max, waiters: self.waiters@ }
    }
}

impl SemaphoreView {
    /// A semaphore built with `initial` units (clamped to `max`) and nobody waiting.
    pub open spec fn initial(initial: u32, max: u32) -> SemaphoreView {
        SemaphoreView {
            count: if initial < max { initial } else { max },
            max,
            waiters: Seq::empty(),
        }
    }

    /// The semaphore after a successful wait takes a unit.
    pub open spec fn taken(self) -> SemaphoreView {
        SemaphoreView { count: (self.count - 1) as u32, ..self }
    }

    /// The semaphore after `task` queues as a waiter (at most once).
    pub open spec fn with_waiter(self, task: usize) -> SemaphoreView {
        if self.waiters.contains(task) {
            self
        } else {
            SemaphoreView { waiters: self.waiters.push(task), ..self }
        }
    }

    /// The semaphore after a signal, the waiters ranked by `prios` (position for
    /// position), and the waiter the unit was handed to, if any.
    pub open spec fn signaled(self, prios: Seq<u8>) -> (SemaphoreView, Option<usize>) {
        if self.waiters.len() == 0 {
            (
                SemaphoreView {
                    count: if self.count < self.max { (self.count + 1) as u32 } else { self.count },
                    ..self
                },
                None,
            )
        } else {
            let b = choice(self.waiters, prios);
            (SemaphoreView { waiters: self.waiters.remove(b), ..self }, Some(self.waiters[b]))
        }
    }
}

impl Semaphore {
    pub fn new(initial: u32, max: u32) -> (s: Semaphore)
        ensures
            s@ == SemaphoreView::initial(initial, max),
    {
        Semaphore { count: if initial < max { initial } else { max }, max, waiters: Vec::new() }
    }

    pub fn count(&self) -> (c: u32)
        ensures
            c == self@.count,
    {
        self.count
    }

    /// Try to take a unit. Returns `true` if it succeeded without blocking.
    pub fn try_wait(&mut self) -> (ok: bool)
        ensures
            ok == (old(self)@.count > 0),
            final(self)@ == (if ok { old(self)@.taken() } else { old(self)@ }),
    {
        if self.count > 0 {
            self.count = self.count - 1;
            true
        } else {
            false
        }
    }

    pub fn add_waiter(&mut self, task: usize)
        ensures
            final(self)@ == old(self)@.with_waiter(task),
    {
        if !list_contains(&self.waiters, task) {
            self.waiters.push(task);
        }
    }

    /// Signal the semaphore. If a task is waiting, the one ranked first by
    /// `priority_of` (lowest id breaking ties) is handed the unit and returned.
    /// Otherwise the count is incremented, saturating at the maximum.
    pub fn signal<F: Fn(usize) -> u8>(&mut self, priority_of: F) -> (woken: Option<usize>)
        requires
            forall|i: int|
                0 <= i < old(self)@.waiters.len() ==> call_requires(priority_of, (old(self)@.waiters[i],)),
        ensures
            exists|prios: Seq<u8>|
                {
                    &&& prios.len() == old(self)@.waiters.len()
                    &&& (forall|i: int|
                        0 <= i < prios.len() ==> call_ensures(
                            priority_of,
                            (old(self)@.waiters[i],),
                            #[trigger] prios[i],
                        ))
                    &&& (final(self)@, woken) == old(self)@.signaled(prios)
                },
    {
        assert(self.waiters@ == old(self)@.waiters);
        let prios = ranks_from_fn(&self.waiters, &priority_of);
        let woken = self.signal_ranked(&prios);
        assert(prios@.len() == old(self)@.waiters.len());
        woken
    }

    /// Signal, the waiters ranked by the per-task priority table `table`.
    pub fn signal_by_table(&mut self, table: &Vec<u8>) -> (woken: Option<usize>)
        requires
            forall|i: int| 0 <= i < old(self)@.waiters.len() ==> old(self)@.waiters[i] < table.len(),
        ensures
            (final(self)@, woken) == old(self)@.signaled(ranks_of(old(self)@.waiters, table@)),
    {
        assert(self.waiters@ == old(self)@.waiters);
        let prios = ranks_from_table(&self.waiters, table);
        self.signal_ranked(&prios)
    }

    fn signal_ranked(&mut self, prios: &Vec<u8>) -> (woken: Option<usize>)
        requires
            prios.len() == old(self)@.waiters.len(),
        ensures
            (final(self)@, woken) == old(self)@.signaled(prios@),
    {
        if self.waiters.len() == 0 {
            if self.count < self.max {
                self.count = self.count + 1;
            }
            return None;
        }
        let best = choose_best(&self.waiters, prios);
        Some(self.waiters.remove(best))
    }
}

/// A signal never loses or invents a unit: it either hands exactly one unit to a
/// waiter that leaves the queue (the count unchanged), or raises the count by one,
/// or, at the saturation limit with nobody waiting, leaves the count at the limit.
pub proof fn law_signal_conserves(s: SemaphoreView, prios: Seq<u8>)
    requires
        s.count <= s.max,
        prios.len() == s.waiters.len(),
    ensures
        ({
            let (t, woken) = s.signaled(prios);
            &&& woken matches Some(w) ==> {
                &&& t.count == s.count
                &&& t.waiters.len() + 1 == s.waiters.len()
                &&& s.waiters.contains(w)
            }
            &&& woken is None ==> {
                &&& s.waiters.len() == 0
                &&& (s.count < s.max ==> t.count == s.count + 1)
                &&& (s.count == s.max ==> t.count == s.max)
            }
            &&& t.count <= t.max
        }),
{
    let (t, woken) = s.signaled(prios);
    if s.waiters.len() > 0 {
        let b = choice(s.waiters, prios);
        crate::kernel::select::lemma_choice_exists(s.waiters, prios);
        assert(s.waiters.contains(s.waiters[b]));
    }
}

/// A wait and a signal with nobody waiting undo each other.
pub proof fn law_wait_then_signal(s: SemaphoreView, prios: Seq<u8>)
    requires
        s.count > 0,
        s.count <= s.max,
        s.waiters.len() == 0,
    ensures
        s.taken().signaled(prios).0 == s,
{
}

} // verus!
