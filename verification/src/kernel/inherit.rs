//! Priority inheritance: boosting mutex holders and restoring them on release.
use vstd::prelude::*;
use crate::kernel::{lemma_tasks_update, BlockReason, Event, Kernel};
use crate::kernel::model::{count_below, lemma_count_below_raise, waiters_max};

verus! {

impl Kernel {
    /// Walk the chain of blocked owners, boosting each holder to the priority of the
    /// task waiting on it. This is priority inheritance, including the nested case
    /// where a holder is itself blocked on another mutex.
    pub(crate) fn apply_inheritance(&mut self, blocked_task: usize)
        requires
            old(self)@.chain_ok(blocked_task),
        ensures
            final(self)@ == old(self)@.inherited(blocked_task),
            old(self)@.refs_ok() ==> final(self)@.refs_ok(),
    {
        let mut current = blocked_task;
        loop
            invariant
                old(self)@.refs_ok() ==> self@.refs_ok(),
                self@.chain_ok(current),
                current < self@.tasks.len(),
                self.tasks.len() == self@.tasks.len(),
                self.mutexes.len() == self@.mutexes.len(),
                self@.inherited(current) == old(self)@.inherited(blocked_task),
            ensures
                self@ == old(self)@.inherited(blocked_task),
                old(self)@.refs_ok() ==> self@.refs_ok(),
            decreases count_below(self@.tasks, self@.tasks[current as int].eff_priority),
        {
            let ghost k = self@;
            assert(self@.tasks[current as int] == self.tasks@[current as int]@);
            match self.tasks[current].blocked_on {
                Some(BlockReason::Mutex(mutex_id)) => {
                    assert(mutex_id < self@.mutexes.len());
                    assert(self@.mutexes[mutex_id as int] == self.mutexes@[mutex_id as int]@);
                    let owner = match self.mutexes[mutex_id].owner {
                        Some(o) => o,
                        None => {
                            return;
                        },
                    };
                    assert(owner < self@.tasks.len());
                    assert(self@.tasks[owner as int] == self.tasks@[owner as int]@);
                    let want = self.tasks[current].eff_priority;
                    if want > self.tasks[owner].eff_priority {
                        let ghost before = self.tasks@;
                        self.tasks[owner].eff_priority = want;
                        proof {
                            lemma_tasks_update(before, owner as int, self.tasks@[owner as int]);
                        }
                        self.log.push(Event::Inherit { holder: owner, boosted_to: want, waiter: current });
                        proof {
                            let tnew = k.tasks[owner as int].with_eff(want);
                            assert(self@ == k.set_task(owner, tnew).logged(
                                Event::Inherit { holder: owner, boosted_to: want, waiter: current },
                            ));
                            if k.refs_ok() {
                                k.lemma_refs_ok_eff(
                                    owner,
                                    want,
                                    Event::Inherit { holder: owner, boosted_to: want, waiter: current },
                                );
                            }
                            lemma_count_below_raise(k.tasks, owner as int, tnew, want);
                        }
                        current = owner;
                    } else {
                        return;
                    }
                },
                _ => {
                    return;
                },
            }
        }
    }

    /// Recompute a holder's effective priority from its base and the tasks still
    /// waiting on the mutexes it holds, dropping a boost that is no longer justified.
    pub(crate) fn recompute_holder(&mut self, holder: usize)
        requires
            old(self)@.holder_refs_ok(holder as int),
        ensures
            final(self)@ == old(self)@.recomputed(holder),
            old(self)@.refs_ok() ==> final(self)@.refs_ok(),
    {
        let ghost k = self@;
        let ghost effs = k.eff_table();
        assert(self@.tasks[holder as int] == self.tasks@[holder as int]@);
        let held = self.tasks[holder].held_mutexes.clone();
        assert(held@ == k.tasks[holder as int].held_mutexes);
        let mut p = self.tasks[holder].base_priority;
        let mut i: usize = 0;
        while i < held.len()
            invariant
                self@ == k,
                held@ == k.tasks[holder as int].held_mutexes,
                k.holder_refs_ok(holder as int),
                i <= held.len(),
                p == k.held_max(held@, i as int, k.tasks[holder as int].base_priority),
                effs == k.eff_table(),
            decreases held.len() - i,
        {
            let m = held[i];
            assert(m < k.mutexes.len());
            assert(k.mutex_refs_ok(held@[i as int] as int));
            assert(k.mutexes[m as int] == self.mutexes@[m as int]@);
            let ghost q0 = p;
            let ghost ws = k.mutexes[m as int].waiters;
            let mut j: usize = 0;
            while j < self.mutexes[m].waiters.len()
                invariant
                    self@ == k,
                    m < k.mutexes.len(),
                    ws == k.mutexes[m as int].waiters,
                    ws == self.mutexes@[m as int].waiters@,
                    effs == k.eff_table(),
                    j <= ws.len(),
                    p == waiters_max(effs, ws, j as int, q0),
                    k.mutex_refs_ok(m as int),
                decreases ws.len() - j,
            {
                let w = self.mutexes[m].waiters[j];
                assert(ws[j as int] == w);
                assert(w < k.tasks.len());
                assert(k.tasks[w as int] == self.tasks@[w as int]@);
                let e = self.tasks[w].eff_priority;
                if e > p {
                    p = e;
                }
                j = j + 1;
            }
            i = i + 1;
        }
        if p != self.tasks[holder].eff_priority {
            let ghost before = self.tasks@;
            self.tasks[holder].eff_priority = p;
            proof {
                lemma_tasks_update(before, holder as int, self.tasks@[holder as int]);
            }
            self.log.push(Event::Restore { holder, to: p });
            proof {
                if k.refs_ok() {
                    k.lemma_refs_ok_eff(holder, p, Event::Restore { holder, to: p });
                }
            }
        }
    }
}

} // verus!
