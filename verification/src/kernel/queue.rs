//! A bounded message queue with strict FIFO delivery.
use vstd::prelude::*;
use std::collections::VecDeque;
use crate::kernel::select::{choice, choose_best, ranks_from_fn, ranks_from_table, ranks_of};

verus! {

#[derive(Clone, Debug)]
pub struct Queue {
    buf: VecDeque<u32>,
    capacity: usize,
    pub recv_waiters: Vec<usize>,
    pub send_waiters: Vec<usize>,
    pub sent: u64,
    pub received: u64,
}

/// The values in flight (oldest first), the capacity, the blocked receivers and
/// senders, and the delivery counters.
pub struct QueueView {
    pub buf: Seq<u32>,
    pub capacity: usize,
    pub recv_waiters: Seq<usize>,
    pub send_waiters: Seq<usize>,
    pub sent: u64,
    pub received: u64,
}

impl View for Queue {
    type V = QueueView;

    closed spec fn view(&self) -> QueueView {
        QueueView {
            buf: self.buf@,
            capacity: self.capacity,
            recv_waiters: self.recv_waiters@,
            send_waiters: self.send_waiters@,
            sent: self.sent,
            received: self.received,
        }
    }
}

/// The position chosen among `list` (ranked by `prios`), removed, if the list is
/// not empty.
pub open spec fn take_best(list: Seq<usize>, prios: Seq<u8>) -> (Seq<usize>, Option<usize>) {
    if list.len() == 0 {
        (list, None)
    } else {
        let b = choice(list, prios);
        (list.remove(b), Some(list[b]))
    }
}

impl QueueView {
    /// An empty queue of `capacity` (at least one).
    pub open spec fn initial(capacity: usize) -> QueueView {
        QueueView {
            buf: Seq::empty(),
            capacity: if capacity < 1 { 1 } else { capacity },
            recv_waiters: Seq::empty(),
            send_waiters: Seq::empty(),
            sent: 0,
            received: 0,
        }
    }

    pub open spec fn is_full(self) -> bool {
        self.buf.len() >= self.capacity
    }

    /// The queue after trying to send `value`, and whether it was accepted.
    pub open spec fn after_send(self, value: u32) -> (QueueView, bool) {
        if self.is_full() {
            (self, false)
        } else {
            (QueueView { buf: self.buf.push(value), sent: (self.sent + 1) as u64, ..self }, true)
        }
    }

    /// The queue after trying to receive, and the oldest value if there was one.
    pub open spec fn after_recv(self) -> (QueueView, Option<u32>) {
        if self.buf.len() == 0 {
            (self, None)
        } else {
            (
                QueueView { buf: self.buf.drop_first(), received: (self.received + 1) as u64, ..self },
                Some(self.buf[0]),
            )
        }
    }

    /// The queue after the preferred blocked receiver is woken, and who it is.
    pub open spec fn after_wake_receiver(self, prios: Seq<u8>) -> (QueueView, Option<usize>) {
        let (rest, w) = take_best(self.recv_waiters, prios);
        (QueueView { recv_waiters: rest, ..self }, w)
    }

    /// The queue after the preferred blocked sender is woken, and who it is.
    pub open spec fn after_wake_sender(self, prios: Seq<u8>) -> (QueueView, Option<usize>) {
        let (rest, w) = take_best(self.send_waiters, prios);
        (QueueView { send_waiters: rest, ..self }, w)
    }

    /// Every value sent has been received or is still in flight.
    pub open spec fn conserved(self) -> bool {
        self.sent == self.received + self.buf.len()
    }
}

impl Queue {
    pub fn new(capacity: usize) -> (q: Queue)
        ensures
            q@ == QueueView::initial(capacity),
    {
        let q = Queue {
            buf: VecDeque::new(),
            capacity: if capacity < 1 { 1 } else { capacity },
            recv_waiters: Vec::new(),
            send_waiters: Vec::new(),
            sent: 0,
            received: 0,
        };
        assert(q@.buf =~= Seq::<u32>::empty());
        q
    }

    pub fn len(&self) -> (n: usize)
        ensures
            n == self@.buf.len(),
    {
        self.buf.len()
    }

    pub fn is_empty(&self) -> (r: bool)
        ensures
            r == (self@.buf.len() == 0),
    {
        self.buf.len() == 0
    }

    pub fn is_full(&self) -> (r: bool)
        ensures
            r == self@.is_full(),
    {
        self.buf.len() >= self.capacity
    }

    pub fn capacity(&self) -> (c: usize)
        ensures
            c == self@.capacity,
    {
        self.capacity
    }

    /// Push a value if there is room. Returns `false` if the queue is full.
    /// Whether every value sent has been received or is still in flight.
    pub fn is_conserved(&self) -> (ok: bool)
        ensures
            ok == self@.conserved(),
    {
        (self.sent as u128) == (self.received as u128) + (self.buf.len() as u128)
    }

    pub fn try_send(&mut self, value: u32) -> (ok: bool)
        requires
            !old(self)@.is_full() ==> old(self)@.sent < u64::MAX,
        ensures
            (final(self)@, ok) == old(self)@.after_send(value),
    {
        if self.is_full() {
            return false;
        }
        self.buf.push_back(value);
        self.sent = self.sent + 1;
        true
    }

    /// Pop the oldest value, or `None` if empty.
    pub fn try_recv(&mut self) -> (v: Option<u32>)
        requires
            old(self)@.buf.len() > 0 ==> old(self)@.received < u64::MAX,
        ensures
            (final(self)@, v) == old(self)@.after_recv(),
    {
        let v = self.buf.pop_front();
        if v.is_some() {
            self.received = self.received + 1;
        }
        proof {
            if old(self)@.buf.len() > 0 {
                assert(self.buf@ =~= old(self)@.buf.drop_first());
            }
        }
        v
    }

    /// Record `task` as blocked sending.
    pub fn add_send_waiter(&mut self, task: usize)
        ensures
            final(self)@ == (QueueView { send_waiters: old(self)@.send_waiters.push(task), ..old(self)@ }),
    {
        self.send_waiters.push(task);
    }

    /// Record `task` as blocked receiving.
    pub fn add_recv_waiter(&mut self, task: usize)
        ensures
            final(self)@ == (QueueView { recv_waiters: old(self)@.recv_waiters.push(task), ..old(self)@ }),
    {
        self.recv_waiters.push(task);
    }

    fn pop_best(list: &mut Vec<usize>, prios: &Vec<u8>) -> (r: Option<usize>)
        requires
            prios.len() == old(list).len(),
        ensures
            (final(list)@, r) == take_best(old(list)@, prios@),
    {
        if list.len() == 0 {
            return None;
        }
        let best = choose_best(list, prios);
        Some(list.remove(best))
    }

    /// Wake the blocked receiver ranked first by `priority_of` (lowest id breaking
    /// ties), removing it from the receive waiters.
    pub fn wake_receiver<F: Fn(usize) -> u8>(&mut self, priority_of: F) -> (w: Option<usize>)
        requires
            forall|i: int|
                0 <= i < old(self)@.recv_waiters.len() ==> call_requires(
                    priority_of,
                    (old(self)@.recv_waiters[i],),
                ),
        ensures
            exists|prios: Seq<u8>|
                {
                    &&& prios.len() == old(self)@.recv_waiters.len()
                    &&& (forall|i: int|
                        0 <= i < prios.len() ==> call_ensures(
                            priority_of,
                            (old(self)@.recv_waiters[i],),
                            #[trigger] prios[i],
                        ))
                    &&& (final(self)@, w) == old(self)@.after_wake_receiver(prios)
                },
    {
        assert(self.recv_waiters@ == old(self)@.recv_waiters);
        let prios = ranks_from_fn(&self.recv_waiters, &priority_of);
        let w = Self::pop_best(&mut self.recv_waiters, &prios);
        assert(prios@.len() == old(self)@.recv_waiters.len());
        assert((self@, w) == old(self)@.after_wake_receiver(prios@));
        w
    }

    /// Wake the blocked sender ranked first by `priority_of` (lowest id breaking
    /// ties), removing it from the send waiters.
    pub fn wake_sender<F: Fn(usize) -> u8>(&mut self, priority_of: F) -> (w: Option<usize>)
        requires
            forall|i: int|
                0 <= i < old(self)@.send_waiters.len() ==> call_requires(
                    priority_of,
                    (old(self)@.send_waiters[i],),
                ),
        ensures
            exists|prios: Seq<u8>|
                {
                    &&& prios.len() == old(self)@.send_waiters.len()
                    &&& (forall|i: int|
                        0 <= i < prios.len() ==> call_ensures(
                            priority_of,
                            (old(self)@.send_waiters[i],),
                            #[trigger] prios[i],
                        ))
                    &&& (final(self)@, w) == old(self)@.after_wake_sender(prios)
                },
    {
        assert(self.send_waiters@ == old(self)@.send_waiters);
        let prios = ranks_from_fn(&self.send_waiters, &priority_of);
        let w = Self::pop_best(&mut self.send_waiters, &prios);
        assert(prios@.len() == old(self)@.send_waiters.len());
        assert((self@, w) == old(self)@.after_wake_sender(prios@));
        w
    }

    /// Wake the preferred blocked receiver, ranked by the per-task table `table`.
    pub fn wake_receiver_by_table(&mut self, table: &Vec<u8>) -> (w: Option<usize>)
        requires
            forall|i: int| 0 <= i < old(self)@.recv_waiters.len() ==> old(self)@.recv_waiters[i] < table.len(),
        ensures
            (final(self)@, w) == old(self)@.after_wake_receiver(ranks_of(old(self)@.recv_waiters, table@)),
    {
        assert(self.recv_waiters@ == old(self)@.recv_waiters);
        let prios = ranks_from_table(&self.recv_waiters, table);
        Self::pop_best(&mut self.recv_waiters, &prios)
    }

    /// Wake the preferred blocked sender, ranked by the per-task table `table`.
    pub fn wake_sender_by_table(&mut self, table: &Vec<u8>) -> (w: Option<usize>)
        requires
            forall|i: int| 0 <= i < old(self)@.send_waiters.len() ==> old(self)@.send_waiters[i] < table.len(),
        ensures
            (final(self)@, w) == old(self)@.after_wake_sender(ranks_of(old(self)@.send_waiters, table@)),
    {
        assert(self.send_waiters@ == old(self)@.send_waiters);
        let prios = ranks_from_table(&self.send_waiters, table);
        Self::pop_best(&mut self.send_waiters, &prios)
    }
}

/// Sending and receiving keep every value accounted for: a queue in which each sent
/// value was received or is in flight stays so.
pub proof fn law_queue_conserves(q: QueueView, value: u32)
    requires
        q.conserved(),
        q.sent < u64::MAX,
        q.received < u64::MAX,
    ensures
        q.after_send(value).0.conserved(),
        q.after_recv().0.conserved(),
{
}

/// Delivery is first in, first out: the value received is the oldest one sent that
/// has not been received, and a value sent goes behind every value in flight.
pub proof fn law_queue_fifo(q: QueueView, value: u32)
    requires
        !q.is_full(),
    ensures
        q.after_send(value).0.buf == q.buf.push(value),
        q.buf.len() > 0 ==> q.after_recv().1 == Some(q.buf[0]),
        q.buf.len() > 0 ==> q.after_recv().0.buf + seq![value] == q.after_send(value).0.buf.drop_first(),
{
    if q.buf.len() > 0 {
        assert(q.after_recv().0.buf + seq![value] =~= q.after_send(value).0.buf.drop_first());
    }
}

} // verus!
