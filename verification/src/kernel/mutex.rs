//! A mutex with priority inheritance. The mutex tracks its owner and the tasks
//! blocked on it; the inheritance decision is taken by the kernel.
use vstd::prelude::*;
use crate::kernel::select::{choice, choose_best, list_contains, ranks_from_fn, ranks_from_table, ranks_of};

verus! {

#[derive(Clone, Debug)]
pub struct Mutex {
    pub owner: Option<usize>,
    pub waiters: Vec<usize>,
}

/// The owner of a mutex and the tasks waiting for it, in arrival order.
pub struct MutexView {
    pub owner: Option<usize>,
    pub waiters: Seq<usize>,
}

impl View for Mutex {
    type V = MutexView;

    open spec fn view(&self) -> MutexView {
        MutexView { owner: self.owner, waiters: self.waiters@ }
    }
}

impl MutexView {
    /// A free mutex with nobody waiting.
    pub open spec fn fresh() -> MutexView {
        MutexView { owner: None, waiters: Seq::empty() }
    }

    /// The mutex after `task` tries to take it: taken only when free.
    pub open spec fn acquired(self, task: usize) -> MutexView {
        if self.owner is None {
            MutexView { owner: Some(task), ..self }
        } else {
            self
        }
    }

    /// The mutex after `task` queues as a waiter (at most once).
    pub open spec fn with_waiter(self, task: usize) -> MutexView {
        if self.waiters.contains(task) {
            self
        } else {
            MutexView { waiters: self.waiters.push(task), ..self }
        }
    }

    /// The mutex after `task` releases it, the waiters ranked by `prios` (position for
    /// position), and who is granted it. A release by anyone but the owner changes
    /// nothing; otherwise the preferred waiter, if any, becomes the owner.
    pub open spec fn released(self, task: usize, prios: Seq<u8>) -> (MutexView, Option<usize>) {
        if self.owner != Some(task) {
            (self, None)
        } else if self.waiters.len() == 0 {
            (MutexView { owner: None, ..self }, None)
        } else {
            let b = choice(self.waiters, prios);
            (
                MutexView { owner: Some(self.waiters[b]), waiters: self.waiters.remove(b) },
                Some(self.waiters[b]),
            )
        }
    }
}

impl Mutex {
    pub fn new() -> (m: Mutex)
        ensures
            m@ == MutexView::fresh(),
    {
        Mutex { owner: None, waiters: Vec::new() }
    }

    pub fn is_free(&self) -> (r: bool)
        ensures
            r == (self.owner is None),
    {
        self.owner.is_none()
    }

    /// Try to take the mutex for `task`. Succeeds only if it is free.
    pub fn try_acquire(&mut self, task: usize) -> (ok: bool)
        ensures
            ok == (old(self).owner is None),
            final(self)@ == old(self)@.acquired(task),
    {
        if self.owner.is_none() {
            self.owner = Some(task);
            true
        } else {
            false
        }
    }

    pub fn add_waiter(&mut self, task: usize)
        ensures
            final(self)@ == old(self)@.with_waiter(task),
    {
        if !list_contains(&self.waiters, task) {
            self.waiters.push(task);
        }
    }

    /// Release the mutex on behalf of `task`, granting it to the waiter ranked first by
    /// `priority_of` (the lowest task id breaking ties). Returns the new owner, if any.
    pub fn release<F: Fn(usize) -> u8>(&mut self, task: usize, priority_of: F) -> (next: Option<usize>)
        requires
            forall|i: int|
                0 <= i < old(self).waiters.len() ==> call_requires(priority_of, (old(self).waiters@[i],)),
        ensures
            exists|prios: Seq<u8>|
                {
                    &&& prios.len() == old(self).waiters.len()
                    &&& (forall|i: int|
                        0 <= i < prios.len() ==> call_ensures(
                            priority_of,
                            (old(self).waiters@[i],),
                            #[trigger] prios[i],
                        ))
                    &&& (final(self)@, next) == old(self)@.released(task, prios)
                },
    {
        let prios = ranks_from_fn(&self.waiters, &priority_of);
        let next = self.release_ranked(task, &prios);
        assert(prios@.len() == old(self).waiters.len());
        next
    }

    /// Release on behalf of `task`, the waiters ranked by the per-task priority table
    /// `table` (indexed by task id).
    pub fn release_by_table(&mut self, task: usize, table: &Vec<u8>) -> (next: Option<usize>)
        requires
            forall|i: int| 0 <= i < old(self).waiters.len() ==> old(self).waiters@[i] < table.len(),
        ensures
            (final(self)@, next) == old(self)@.released(task, ranks_of(old(self).waiters@, table@)),
    {
        let prios = ranks_from_table(&self.waiters, table);
        self.release_ranked(task, &prios)
    }

    fn release_ranked(&mut self, task: usize, prios: &Vec<u8>) -> (next: Option<usize>)
        requires
            prios.len() == old(self).waiters.len(),
        ensures
            (final(self)@, next) == old(self)@.released(task, prios@),
    {
        if self.owner != Some(task) {
            return None;
        }
        self.owner = None;
        if self.waiters.len() == 0 {
            return None;
        }
        let best = choose_best(&self.waiters, prios);
        let next = self.waiters.remove(best);
        self.owner = Some(next);
        Some(next)
    }
}

impl Default for Mutex {
    fn default() -> (m: Mutex)
        ensures
            m@ == MutexView::fresh(),
    {
        Mutex::new()
    }
}

} // verus!
