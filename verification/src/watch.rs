//! A value tasks wait on to change, waking its waiters in the order they began to wait.

use vstd::prelude::*;

verus! {

/// A channel: the value its sender last sent, and who waits for the next.
#[derive(Debug)]
pub struct Channel<T> {
    value: T,
    /// How many values the sender has sent.
    version: u64,
    /// Whether the sender is gone.
    closed: bool,
    /// The tickets of those who wait, in the order they began to.
    waiting: Vec<u64>,
}

/// What a receiver has seen of its channel.
#[derive(Clone, Copy, Debug, PartialEq, Eq, Structural)]
pub struct Receiver {
    /// The version of the newest value this receiver has seen.
    pub seen: u64,
}

/// What becomes of a receiver that waits.
#[derive(Clone, Copy, Debug, PartialEq, Eq, Structural)]
pub enum Waited {
    /// What it waits for holds, and is marked seen.
    Ready,
    /// The sender is gone, and what it waits for does not hold.
    Closed,
    /// It waits, under this ticket, to be woken and to look again.
    Waiting(u64),
}

/// Whether `waited` is what becomes of a receiver: it is done where what it waits for holds, and
/// else waits, unless the sender is gone.
pub open spec fn is_outcome(ready: bool, closed: bool, waited: Waited) -> bool {
    match waited {
        Waited::Ready => ready,
        Waited::Closed => !ready && closed,
        Waited::Waiting(_) => !ready && !closed,
    }
}

/// Whether no ticket occurs twice.
pub open spec fn are_distinct(waiting: Seq<u64>) -> bool {
    forall|i: int, j: int| 0 <= i < j < waiting.len() ==> waiting[i] != waiting[j]
}

/// Whether `ticket` is the least that nobody waits under.
pub open spec fn is_next(waiting: Seq<u64>, ticket: u64) -> bool {
    &&& !waiting.contains(ticket)
    &&& forall|other: u64| other < ticket ==> #[trigger] waiting.contains(other)
}

/// There are as many tickets as numbers among them, at least.
proof fn lemma_enough(waiting: Seq<u64>, n: int)
    requires
        0 <= n <= u64::MAX + 1,
        forall|ticket: u64| ticket < n ==> #[trigger] waiting.contains(ticket),
    ensures
        n <= waiting.len(),
    decreases n,
{
    if n > 0 {
        let last = (n - 1) as u64;
        assert(waiting.contains(last));
        let at = choose|i: int| 0 <= i < waiting.len() && waiting[i] == last;
        let rest = waiting.remove(at);
        assert forall|ticket: u64| ticket < n - 1 implies #[trigger] rest.contains(ticket) by {
            assert(waiting.contains(ticket));
            let i = choose|i: int| 0 <= i < waiting.len() && waiting[i] == ticket;
            if i < at {
                assert(rest[i] == ticket);
            } else {
                assert(rest[i - 1] == ticket);
            }
        }
        lemma_enough(rest, n - 1);
    }
}

/// Whether somebody waits under `ticket`.
fn is_taken(waiting: &Vec<u64>, ticket: u64) -> (taken: bool)
    ensures
        taken == waiting@.contains(ticket),
{
    let mut at: usize = 0;
    while at < waiting.len()
        invariant
            at <= waiting@.len(),
            forall|i: int| 0 <= i < at ==> #[trigger] waiting@[i] != ticket,
        decreases waiting@.len() - at,
    {
        if waiting[at] == ticket {
            assert(waiting@[at as int] == ticket);
            return true;
        }
        at = at + 1;
    }
    false
}

/// The least ticket that nobody waits under. There always is one: a ticket is free again once its
/// holder was woken or left.
fn next_ticket(waiting: &Vec<u64>) -> (ticket: u64)
    ensures
        is_next(waiting@, ticket),
{
    let mut ticket: u64 = 0;
    while is_taken(waiting, ticket)
        invariant
            forall|other: u64| other < ticket ==> #[trigger] waiting@.contains(other),
        decreases u64::MAX - ticket,
    {
        proof {
            assert(waiting.len() == waiting@.len());
            lemma_enough(waiting@, ticket + 1);
            assert(ticket < u64::MAX) by {
                assert(waiting@.len() <= usize::MAX <= u64::MAX);
            }
        }
        ticket = ticket + 1;
    }
    ticket
}

impl<T> Channel<T> {
    /// The value held.
    pub closed spec fn held(&self) -> T {
        self.value
    }

    /// How many values the sender has sent.
    pub closed spec fn version(&self) -> u64 {
        self.version
    }

    /// Whether the sender is gone.
    pub closed spec fn is_closed(&self) -> bool {
        self.closed
    }

    /// The tickets of those who wait, in the order they began to.
    pub closed spec fn waiters(&self) -> Seq<u64> {
        self.waiting@
    }

    /// Whether no two wait under one ticket.
    pub open spec fn wf(&self) -> bool {
        are_distinct(self.waiters())
    }

    /// A channel holding `value`, and a receiver that has seen `value`.
    pub fn channel(value: T) -> (pair: (Channel<T>, Receiver))
        ensures
            pair.0.held() == value,
            pair.0.version() == 0,
            !pair.0.is_closed(),
            pair.0.waiters() == Seq::<u64>::empty(),
            pair.0.wf(),
            pair.1.seen == pair.0.version(),
    {
        let channel = Channel { value, version: 0, closed: false, waiting: Vec::new() };
        let receiver: Receiver = channel.subscribe();
        (channel, receiver)
    }

    /// A receiver that has seen the value held now.
    pub fn subscribe(&self) -> (receiver: Receiver)
        ensures
            receiver.seen == self.version(),
    {
        Receiver { seen: self.version }
    }

    /// The value held now.
    pub fn borrow(&self) -> (value: &T)
        ensures
            *value == self.held(),
    {
        &self.value
    }

    /// The value held now, marked seen by `receiver`.
    pub fn borrow_and_update(&self, receiver: &mut Receiver) -> (value: &T)
        ensures
            *value == self.held(),
            final(receiver).seen == self.version(),
    {
        receiver.seen = self.version;
        &self.value
    }

    /// Whether another value can be sent.
    pub fn can_send(&self) -> (can: bool)
        ensures
            can == (self.version() < u64::MAX),
    {
        self.version < u64::MAX
    }

    /// Whether sending `value` gives back `replaced`, wakes `woken`, and leaves the channel as
    /// `after`.
    pub open spec fn sends(&self, value: T, replaced: T, woken: Seq<u64>, after: &Channel<T>) -> bool {
        &&& replaced == self.held()
        &&& woken == self.waiters()
        &&& after.held() == value
        &&& after.version() == self.version() + 1
        &&& after.is_closed() == self.is_closed()
        &&& after.waiters() == Seq::<u64>::empty()
    }

    /// Whether the sender's going wakes `woken` and leaves the channel as `after`.
    pub open spec fn closes(&self, woken: Seq<u64>, after: &Channel<T>) -> bool {
        &&& woken == self.waiters()
        &&& after.is_closed()
        &&& after.held() == self.held()
        &&& after.version() == self.version()
        &&& after.waiters() == Seq::<u64>::empty()
    }

    /// Replaces the value with `value`, waking every receiver waiting for a change: the value
    /// replaced, and the tickets to wake, in the order they began to wait.
    pub fn send_replace(&mut self, value: T) -> (sent: (T, Vec<u64>))
        requires
            old(self).wf(),
            old(self).version() < u64::MAX,
        ensures
            old(self).sends(value, sent.0, sent.1@, final(self)),
            final(self).wf(),
    {
        let mut replaced: T = value;
        let mut woken: Vec<u64> = Vec::new();
        self.version = self.version + 1;
        std::mem::swap(&mut replaced, &mut self.value);
        std::mem::swap(&mut woken, &mut self.waiting);
        (replaced, woken)
    }

    /// Marks the sender gone, waking every receiver that waits: their tickets, in the order they
    /// began to wait.
    pub fn close(&mut self) -> (woken: Vec<u64>)
        requires
            old(self).wf(),
        ensures
            old(self).closes(woken@, final(self)),
            final(self).wf(),
    {
        let mut woken: Vec<u64> = Vec::new();
        self.closed = true;
        std::mem::swap(&mut woken, &mut self.waiting);
        woken
    }

    /// Looks for a value `receiver` has not seen, and marks it seen; waits for one where there is
    /// none. One who is woken looks again.
    pub fn changed(&mut self, receiver: &mut Receiver) -> (waited: Waited)
        requires
            old(self).wf(),
        ensures
            old(self).looks(*old(receiver), final(self), *final(receiver), waited),
    {
        let ready: bool = self.version != receiver.seen;
        self.wait(receiver, ready)
    }

    /// Whether a receiver that looks for a value it has not seen leaves the channel as `after` and
    /// itself as `marked`, and is told `waited`.
    pub open spec fn looks(
        &self,
        receiver: Receiver,
        after: &Channel<T>,
        marked: Receiver,
        waited: Waited,
    ) -> bool {
        &&& is_outcome(self.version() != receiver.seen, self.is_closed(), waited)
        &&& after.waits(self, waited)
        &&& marked.seen == self.version()
    }

    /// Looks whether what `receiver` waits for holds of the value, as `ready` says, and marks the
    /// value seen where it does; waits where it does not. One who is woken looks again.
    pub fn wait_for(&mut self, receiver: &mut Receiver, ready: bool) -> (waited: Waited)
        requires
            old(self).wf(),
        ensures
            is_outcome(ready, old(self).is_closed(), waited),
            final(self).waits(old(self), waited),
            final(receiver).seen == if ready {
                old(self).version()
            } else {
                old(receiver).seen
            },
    {
        self.wait(receiver, ready)
    }

    /// Whether the channel is `before` with whoever `waited` among those who wait, last.
    pub open spec fn waits(&self, before: &Channel<T>, waited: Waited) -> bool {
        &&& self.held() == before.held()
        &&& self.version() == before.version()
        &&& self.is_closed() == before.is_closed()
        &&& self.wf()
        &&& match waited {
            Waited::Waiting(ticket) => is_next(before.waiters(), ticket) && self.waiters()
                == before.waiters().push(ticket),
            _ => self.waiters() == before.waiters(),
        }
    }

    fn wait(&mut self, receiver: &mut Receiver, ready: bool) -> (waited: Waited)
        requires
            old(self).wf(),
        ensures
            is_outcome(ready, old(self).is_closed(), waited),
            final(self).waits(old(self), waited),
            final(receiver).seen == if ready {
                old(self).version()
            } else {
                old(receiver).seen
            },
    {
        if ready {
            receiver.seen = self.version;
            return Waited::Ready;
        }
        if self.closed {
            return Waited::Closed;
        }
        let ticket: u64 = next_ticket(&self.waiting);
        self.waiting.push(ticket);
        Waited::Waiting(ticket)
    }

    /// Stops waiting under `ticket`, if it still waits.
    pub fn leave(&mut self, ticket: u64)
        requires
            old(self).wf(),
        ensures
            final(self).held() == old(self).held(),
            final(self).version() == old(self).version(),
            final(self).is_closed() == old(self).is_closed(),
            final(self).wf(),
            !old(self).waiters().contains(ticket) ==> final(self).waiters() == old(self).waiters(),
            forall|i: int|
                0 <= i < old(self).waiters().len() && #[trigger] old(self).waiters()[i] == ticket
                    ==> final(self).waiters() == old(self).waiters().remove(i),
    {
        let ghost before = self.waiting@;
        let mut at: usize = 0;
        while at < self.waiting.len()
            invariant
                at <= self.waiting@.len(),
                before == self.waiting@,
                self.value == old(self).value,
                self.version == old(self).version,
                self.closed == old(self).closed,
                before == old(self).waiting@,
                are_distinct(before),
                forall|i: int| 0 <= i < at ==> #[trigger] before[i] != ticket,
            decreases self.waiting@.len() - at,
        {
            if self.waiting[at] == ticket {
                let dropped: u64 = self.waiting.remove(at);
                assert(self.waiting@ =~= before.remove(at as int));
                return;
            }
            at = at + 1;
        }
    }
}

/// A change is seen once: a receiver is done exactly where a value was sent that it has not seen,
/// even after the sender is gone, it learns that the sender is gone exactly where there is no such
/// value, and waits otherwise. Having looked, it has seen the value, and is not done when it looks
/// again before another is sent.
pub proof fn law_a_change_is_seen_once<T>(
    channel: &Channel<T>,
    receiver: Receiver,
    after: &Channel<T>,
    marked: Receiver,
    waited: Waited,
    later: &Channel<T>,
    marked_again: Receiver,
    again: Waited,
)
    requires
        channel.looks(receiver, after, marked, waited),
        after.looks(marked, later, marked_again, again),
    ensures
        waited is Ready <==> channel.version() != receiver.seen,
        waited is Closed <==> channel.version() == receiver.seen && channel.is_closed(),
        waited is Waiting <==> channel.version() == receiver.seen && !channel.is_closed(),
        marked.seen == channel.version(),
        !(again is Ready),
{
}

/// Whether who waits under `a` began to before who waits under `b`.
pub open spec fn began_before(waiting: Seq<u64>, a: u64, b: u64) -> bool {
    exists|i: int, j: int|
        0 <= i < j < waiting.len() && #[trigger] waiting[i] == a && #[trigger] waiting[j] == b
}

/// Whoever begins to wait stands behind all who wait already, and those who wait keep their order
/// while others begin or stop to: a change, which wakes them as they stand, wakes them in the order
/// they began to wait, every time.
pub proof fn law_waiters_wake_in_order(waiting: Seq<u64>, ticket: u64, a: u64, b: u64, left: int)
    requires
        0 <= left < waiting.len(),
    ensures
        waiting.contains(a) ==> began_before(waiting.push(ticket), a, ticket),
        began_before(waiting, a, b) ==> began_before(waiting.push(ticket), a, b),
        began_before(waiting, a, b) && waiting[left] != a && waiting[left] != b ==> began_before(
            waiting.remove(left),
            a,
            b,
        ),
{
    let more = waiting.push(ticket);
    let fewer = waiting.remove(left);
    if waiting.contains(a) {
        let i = choose|i: int| 0 <= i < waiting.len() && waiting[i] == a;
        assert(more[i] == a && more[waiting.len() as int] == ticket);
    }
    if began_before(waiting, a, b) {
        let (i, j) = choose|i: int, j: int|
            0 <= i < j < waiting.len() && #[trigger] waiting[i] == a && #[trigger] waiting[j] == b;
        assert(more[i] == a && more[j] == b);
        if waiting[left] != a && waiting[left] != b {
            let (k, l) = (
                if i < left {
                    i
                } else {
                    i - 1
                },
                if j < left {
                    j
                } else {
                    j - 1
                },
            );
            assert(fewer[k] == a && fewer[l] == b);
        }
    }
}

/// A value that is sent wakes everyone who waits, and whoever had seen all before finds it, even
/// once the sender is gone; only then, having seen it, does it learn that. The value it replaced is
/// the one that was sent before it.
pub proof fn law_sent_values_reach_everyone<T>(
    before: &Channel<T>,
    value: T,
    replaced: T,
    woken: Seq<u64>,
    sent: &Channel<T>,
    left: Seq<u64>,
    closed: &Channel<T>,
    receiver: Receiver,
    after: &Channel<T>,
    marked: Receiver,
    waited: Waited,
    later: &Channel<T>,
    marked_again: Receiver,
    again: Waited,
)
    requires
        before.sends(value, replaced, woken, sent),
        sent.closes(left, closed),
        receiver.seen == before.version(),
        closed.looks(receiver, after, marked, waited),
        after.looks(marked, later, marked_again, again),
    ensures
        replaced == before.held(),
        forall|ticket: u64| #[trigger] woken.contains(ticket) <==> before.waiters().contains(ticket),
        left.len() == 0,
        waited is Ready,
        after.held() == value,
        again is Closed,
{
}

} // verus!
