//! Choosing which waiter a synchronization object wakes: the highest priority,
//! with the lowest task id breaking ties.
use vstd::prelude::*;

verus! {

/// Task `b` at priority `pb` is preferred over task `a` at priority `pa`: a strictly
/// higher priority, or the same priority and a lower task id.
pub open spec fn outranks(pb: u8, b: usize, pa: u8, a: usize) -> bool {
    pb > pa || (pb == pa && b < a)
}

/// Entry `i` of `ids` (ranked by `prios`, position for position) is the one chosen:
/// nothing outranks it, and it outranks every entry before it.
pub open spec fn is_choice(ids: Seq<usize>, prios: Seq<u8>, i: int) -> bool {
    &&& 0 <= i < ids.len()
    &&& forall|j: int| 0 <= j < ids.len() ==> !outranks(prios[j], ids[j], prios[i], ids[i])
    &&& forall|j: int| 0 <= j < i ==> outranks(prios[i], ids[i], prios[j], ids[j])
}

/// The position chosen among a non-empty list of candidates.
pub open spec fn choice(ids: Seq<usize>, prios: Seq<u8>) -> int {
    choose|i: int| is_choice(ids, prios, i)
}

/// The priorities of the tasks in `ids`, read from a per-task table.
pub open spec fn ranks_of(ids: Seq<usize>, table: Seq<u8>) -> Seq<u8> {
    Seq::new(ids.len(), |i: int| table[ids[i] as int])
}

/// At most one position is the choice.
pub proof fn lemma_choice_unique(ids: Seq<usize>, prios: Seq<u8>, i: int, k: int)
    requires
        is_choice(ids, prios, i),
        is_choice(ids, prios, k),
    ensures
        i == k,
{
    if i < k {
        assert(outranks(prios[k], ids[k], prios[i], ids[i]));
    } else if k < i {
        assert(outranks(prios[i], ids[i], prios[k], ids[k]));
    }
}

/// A chosen position is `choice`.
pub proof fn lemma_is_choice_is_choice_fn(ids: Seq<usize>, prios: Seq<u8>, i: int)
    requires
        is_choice(ids, prios, i),
    ensures
        choice(ids, prios) == i,
        is_choice(ids, prios, choice(ids, prios)),
{
    lemma_choice_unique(ids, prios, i, choice(ids, prios));
}

/// The preferred position among the first `n` candidates.
pub open spec fn best_in_prefix(ids: Seq<usize>, prios: Seq<u8>, n: int) -> int
    decreases n,
{
    if n <= 1 {
        0
    } else {
        let b = best_in_prefix(ids, prios, n - 1);
        if outranks(prios[n - 1], ids[n - 1], prios[b], ids[b]) {
            n - 1
        } else {
            b
        }
    }
}

proof fn lemma_best_in_prefix(ids: Seq<usize>, prios: Seq<u8>, n: int)
    requires
        1 <= n <= ids.len(),
        prios.len() == ids.len(),
    ensures
        0 <= best_in_prefix(ids, prios, n) < n,
        forall|j: int|
            0 <= j < n ==> !outranks(
                prios[j],
                ids[j],
                prios[best_in_prefix(ids, prios, n)],
                ids[best_in_prefix(ids, prios, n)],
            ),
        forall|j: int|
            0 <= j < best_in_prefix(ids, prios, n) ==> outranks(
                prios[best_in_prefix(ids, prios, n)],
                ids[best_in_prefix(ids, prios, n)],
                prios[j],
                ids[j],
            ),
    decreases n,
{
    if n > 1 {
        lemma_best_in_prefix(ids, prios, n - 1);
        let b = best_in_prefix(ids, prios, n - 1);
        let c = best_in_prefix(ids, prios, n);
        if c == n - 1 {
            assert forall|j: int| 0 <= j < n implies !outranks(prios[j], ids[j], prios[c], ids[c]) by {
                if j < n - 1 {
                    assert(!outranks(prios[j], ids[j], prios[b], ids[b]));
                }
            }
            assert forall|j: int| 0 <= j < c implies outranks(prios[c], ids[c], prios[j], ids[j]) by {
                if j < b {
                    assert(outranks(prios[b], ids[b], prios[j], ids[j]));
                } else if j > b {
                    assert(!outranks(prios[j], ids[j], prios[b], ids[b]));
                }
            }
        } else {
            assert(c == b);
            assert forall|j: int| 0 <= j < n implies !outranks(prios[j], ids[j], prios[c], ids[c]) by {
                if j < n - 1 {
                    assert(!outranks(prios[j], ids[j], prios[b], ids[b]));
                }
            }
        }
    }
}

/// A non-empty list of candidates has a choice.
pub proof fn lemma_choice_exists(ids: Seq<usize>, prios: Seq<u8>)
    requires
        ids.len() > 0,
        prios.len() == ids.len(),
    ensures
        is_choice(ids, prios, choice(ids, prios)),
{
    lemma_best_in_prefix(ids, prios, ids.len() as int);
    assert(is_choice(ids, prios, best_in_prefix(ids, prios, ids.len() as int)));
}

/// The position of the preferred candidate among `ids`, ranked by `prios`.
pub fn choose_best(ids: &Vec<usize>, prios: &Vec<u8>) -> (b: usize)
    requires
        ids.len() > 0,
        prios.len() == ids.len(),
    ensures
        is_choice(ids@, prios@, b as int),
        b as int == choice(ids@, prios@),
{
    let mut best: usize = 0;
    let mut i: usize = 1;
    while i < ids.len()
        invariant
            1 <= i <= ids.len(),
            prios.len() == ids.len(),
            best < i,
            forall|j: int|
                0 <= j < i ==> !outranks(prios@[j], ids@[j], prios@[best as int], ids@[best as int]),
            forall|j: int|
                0 <= j < best ==> outranks(prios@[best as int], ids@[best as int], prios@[j], ids@[j]),
        decreases ids.len() - i,
    {
        if prios[i] > prios[best] || (prios[i] == prios[best] && ids[i] < ids[best]) {
            best = i;
        }
        i = i + 1;
    }
    proof {
        lemma_is_choice_is_choice_fn(ids@, prios@, best as int);
    }
    best
}

/// The priorities of the tasks in `ids`, read from a per-task table.
pub fn ranks_from_table(ids: &Vec<usize>, table: &Vec<u8>) -> (r: Vec<u8>)
    requires
        forall|i: int| 0 <= i < ids.len() ==> ids@[i] < table.len(),
    ensures
        r@ == ranks_of(ids@, table@),
{
    let mut r: Vec<u8> = Vec::new();
    let mut i: usize = 0;
    while i < ids.len()
        invariant
            i <= ids.len(),
            forall|k: int| 0 <= k < ids.len() ==> ids@[k] < table.len(),
            r@.len() == i,
            forall|k: int| 0 <= k < i ==> r@[k] == table@[ids@[k] as int],
        decreases ids.len() - i,
    {
        r.push(table[ids[i]]);
        i = i + 1;
    }
    assert(r@ =~= ranks_of(ids@, table@));
    r
}

/// The priorities of the tasks in `ids`, as reported by `priority_of`.
pub fn ranks_from_fn<F: Fn(usize) -> u8>(ids: &Vec<usize>, priority_of: &F) -> (r: Vec<u8>)
    requires
        forall|i: int| 0 <= i < ids.len() ==> call_requires(*priority_of, (ids@[i],)),
    ensures
        r.len() == ids.len(),
        forall|i: int| 0 <= i < ids.len() ==> call_ensures(*priority_of, (ids@[i],), #[trigger] r@[i]),
{
    let mut r: Vec<u8> = Vec::new();
    let mut i: usize = 0;
    while i < ids.len()
        invariant
            i <= ids.len(),
            r.len() == i,
            forall|k: int| 0 <= k < ids.len() ==> call_requires(*priority_of, (ids@[k],)),
            forall|k: int| 0 <= k < i ==> call_ensures(*priority_of, (ids@[k],), #[trigger] r@[k]),
        decreases ids.len() - i,
    {
        let p = priority_of(ids[i]);
        r.push(p);
        i = i + 1;
    }
    r
}

/// True when `task` occurs in `ids`.
pub fn list_contains(ids: &Vec<usize>, task: usize) -> (r: bool)
    ensures
        r == ids@.contains(task),
{
    let mut i: usize = 0;
    while i < ids.len()
        invariant
            i <= ids.len(),
            forall|k: int| 0 <= k < i ==> ids@[k] != task,
        decreases ids.len() - i,
    {
        if ids[i] == task {
            return true;
        }
        i = i + 1;
    }
    false
}

} // verus!
