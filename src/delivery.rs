use vstd::prelude::*;

verus! {

/// The capacity of the channel of newly found devices: beyond it, records
/// wait in the publisher's backlog.
pub const NEW_DEVICES_CAPACITY: usize = 8;

/// A newly discovered record on its way to the consumer, with the serial
/// number under which the registry holds it.
pub struct Pending<T> {
    pub serial: u64,
    pub item: T,
}

/// The serial numbers of a sequence of pending records.
pub open spec fn serials_of<T>(s: Seq<Pending<T>>) -> Seq<u64> {
    s.map_values(|p: Pending<T>| p.serial)
}

#[verifier::external_type_specification]
#[verifier::external_body]
#[verifier::reject_recursive_types(T)]
pub struct ExSyncSender<T>(calloop::channel::SyncSender<T>);

#[verifier::external_type_specification]
#[verifier::external_body]
#[verifier::reject_recursive_types(T)]
pub struct ExChannel<T>(calloop::channel::Channel<T>);

/// What became of one attempt to push a value onto the bounded channel.
pub enum SendOutcome<T> {
    Sent,
    /// The channel was full; the value comes back.
    Full(T),
    /// The receiving end is gone; the value comes back.
    Closed(T),
}

/// How one attempt to push onto the channel ended, without the value.
#[derive(Debug, PartialEq, Eq, Structural)]
pub enum Attempt {
    Accepted,
    Full,
    Closed,
}

/// The producing end of the channel, with a record of every value the channel
/// accepted through it and of how every attempt ended.
#[verifier::reject_recursive_types(T)]
struct Outbox<T> {
    sender: calloop::channel::SyncSender<T>,
    accepted: Ghost<Seq<T>>,
    attempts: Ghost<Seq<Attempt>>,
}

/// Relies on calloop::channel::SyncSender::try_send, which never blocks: it
/// queues the value, or hands it back inside `TrySendError::Full` when the
/// channel is at capacity, or inside `TrySendError::Disconnected` when the
/// receiving end was dropped. Only a queued value joins `accepted`.
#[verifier::external_body]
fn try_send<T>(outbox: &mut Outbox<T>, item: T) -> (r: SendOutcome<T>)
    ensures
        final(outbox).sender == old(outbox).sender,
        match r {
            SendOutcome::Sent => final(outbox).accepted@ == old(outbox).accepted@.push(item)
                && final(outbox).attempts@ == old(outbox).attempts@.push(Attempt::Accepted),
            SendOutcome::Full(x) => x == item && final(outbox).accepted@ == old(outbox).accepted@
                && final(outbox).attempts@ == old(outbox).attempts@.push(Attempt::Full),
            SendOutcome::Closed(x) => x == item && final(outbox).accepted@ == old(outbox).accepted@
                && final(outbox).attempts@ == old(outbox).attempts@.push(Attempt::Closed),
        },
{
    match outbox.sender.try_send(item) {
        Ok(()) => SendOutcome::Sent,
        Err(std::sync::mpsc::TrySendError::Full(x)) => SendOutcome::Full(x),
        Err(std::sync::mpsc::TrySendError::Disconnected(x)) => SendOutcome::Closed(x),
    }
}

/// How a publish step ended.
#[derive(Debug, PartialEq, Eq, Structural)]
pub enum Publish {
    /// Every pending record was delivered.
    Drained,
    /// The channel filled up; the records not delivered wait for the next step.
    Backlogged,
    /// The consumer dropped the receiving end; nothing more can be delivered.
    Closed,
}

/// The values of a sequence of pending records.
pub open spec fn items_of<T>(s: Seq<Pending<T>>) -> Seq<T> {
    s.map_values(|p: Pending<T>| p.item)
}

/// The attempts of a publish step that pushed `n` records and ended with `r`:
/// `n` accepted ones, then, unless every record went out, the refusal that
/// stopped the step.
pub open spec fn step_attempts(n: nat, r: Publish) -> Seq<Attempt> {
    Seq::new(n, |i: int| Attempt::Accepted) + match r {
        Publish::Drained => Seq::empty(),
        Publish::Backlogged => seq![Attempt::Full],
        Publish::Closed => seq![Attempt::Closed],
    }
}

/// The producing side of the delivery channel. Records that do not fit wait in
/// a local backlog, in discovery order, and are offered again ahead of newer
/// discoveries, so that every record discovered is delivered once, in order.
#[verifier::reject_recursive_types(T)]
pub struct Publisher<T> {
    outbox: Outbox<T>,
    backlog: Vec<Pending<T>>,
    sent: Ghost<Seq<Pending<T>>>,
    discovered: Ghost<Seq<u64>>,
}

impl<T> Publisher<T> {
    /// The records pushed onto the channel so far, in order.
    pub closed spec fn sent(&self) -> Seq<Pending<T>> {
        self.sent@
    }

    /// The values that the channel accepted from this publisher, in order.
    pub closed spec fn accepted(&self) -> Seq<T> {
        self.outbox.accepted@
    }

    /// How every attempt to push onto the channel ended, in order.
    pub closed spec fn attempts(&self) -> Seq<Attempt> {
        self.outbox.attempts@
    }

    /// The records waiting in the backlog, in order.
    pub closed spec fn backlog(&self) -> Seq<Pending<T>> {
        self.backlog@
    }

    /// The serial numbers of all records handed to this publisher, in order.
    pub closed spec fn discovered(&self) -> Seq<u64> {
        self.discovered@
    }

    /// The serial numbers of the records pushed onto the channel so far.
    pub open spec fn delivered(&self) -> Seq<u64> {
        serials_of(self.sent())
    }

    /// The serial numbers of the records waiting in the backlog.
    pub open spec fn waiting(&self) -> Seq<u64> {
        serials_of(self.backlog())
    }

    /// What the channel accepted is exactly the records sent; nothing is lost,
    /// duplicated or reordered: what was delivered, followed by what waits,
    /// is what was discovered.
    pub open spec fn wf(&self) -> bool {
        &&& self.accepted() == items_of(self.sent())
        &&& self.delivered() + self.waiting() == self.discovered()
    }

    /// A publisher over the producing end of a bounded channel.
    pub fn new(sender: calloop::channel::SyncSender<T>) -> (r: Self)
        ensures
            r.wf(),
            r.sent().len() == 0,
            r.backlog().len() == 0,
            r.discovered().len() == 0,
            r.attempts().len() == 0,
    {
        let r = Publisher {
            outbox: Outbox { sender, accepted: Ghost(Seq::empty()), attempts: Ghost(Seq::empty()) },
            backlog: Vec::new(),
            sent: Ghost(Seq::empty()),
            discovered: Ghost(Seq::empty()),
        };
        assert(items_of(r.sent()) =~= r.accepted());
        assert(r.waiting() =~= Seq::empty());
        assert(r.delivered() =~= Seq::empty());
        assert(r.delivered() + r.waiting() =~= r.discovered());
        r
    }

    /// The number of records waiting in the backlog.
    pub fn backlog_len(&self) -> (n: usize)
        ensures
            n == self.backlog().len(),
    {
        self.backlog.len()
    }

    /// Offers the backlog, then `fresh`, to the channel, front first, without
    /// blocking. Pushing stops at the first record that the channel refuses:
    /// it and all after it wait for the next step, and the step ends with
    /// `Backlogged` when the channel was full, `Closed` when its receiving end
    /// is gone.
    pub fn publish(&mut self, fresh: Vec<Pending<T>>) -> (r: Publish)
        requires
            old(self).wf(),
        ensures
            final(self).wf(),
            final(self).discovered() == old(self).discovered() + serials_of(fresh@),
            ({
                let queue = old(self).backlog() + fresh@;
                let n = final(self).sent().len() - old(self).sent().len();
                &&& 0 <= n <= queue.len()
                &&& final(self).sent() == old(self).sent() + queue.take(n)
                &&& final(self).accepted() == old(self).accepted() + items_of(queue.take(n))
                &&& final(self).backlog() == queue.skip(n)
                &&& final(self).attempts() == old(self).attempts() + step_attempts(n as nat, r)
                &&& (r == Publish::Drained <==> n == queue.len())
            }),
    {
        let ghost a0 = self.outbox.attempts@;
        let ghost s0 = self.sent@;
        let mut queue: Vec<Pending<T>> = Vec::new();
        std::mem::swap(&mut queue, &mut self.backlog);
        let ghost fresh0 = fresh@;
        let mut newer = fresh;
        queue.append(&mut newer);
        let ghost q0 = queue@;
        assert(q0 =~= old(self).backlog() + fresh0);
        self.discovered = Ghost(self.discovered@ + serials_of(fresh0));
        assert(serials_of(q0) =~= serials_of(old(self).backlog@) + serials_of(fresh0));
        assert(serials_of(s0) + serials_of(old(self).backlog@) == old(self).discovered@);
        assert(serials_of(s0) + serials_of(q0) =~= self.discovered@);
        assert(q0.take(0) =~= Seq::empty());
        assert(s0 + q0.take(0) =~= s0);
        assert(Seq::new(0, |i: int| Attempt::Accepted) =~= Seq::<Attempt>::empty());
        assert(a0 + Seq::new(0, |i: int| Attempt::Accepted) =~= a0);
        while queue.len() > 0
            invariant
                fresh0 == fresh@,
                q0 == old(self).backlog() + fresh@,
                s0 == old(self).sent(),
                old(self).accepted() == items_of(s0),
                a0 == old(self).attempts(),
                self.discovered@ == old(self).discovered() + serials_of(fresh0),
                self.backlog@.len() == 0,
                0 <= self.sent@.len() - s0.len() <= q0.len(),
                self.sent@ == s0 + q0.take(self.sent@.len() - s0.len()),
                queue@ == q0.skip(self.sent@.len() - s0.len()),
                self.outbox.accepted@ == items_of(self.sent@),
                self.outbox.attempts@ == a0 + Seq::new(
                    (self.sent@.len() - s0.len()) as nat,
                    |i: int| Attempt::Accepted,
                ),
                serials_of(self.sent@) + serials_of(queue@) == self.discovered@,
            decreases queue.len(),
        {
            let ghost n = self.sent@.len() - s0.len();
            let ghost q = queue@;
            let ghost sent_before = self.sent@;
            let ghost att_before = self.outbox.attempts@;
            assert(q.len() == q0.len() - n);
            assert(n < q0.len());
            let p = queue.remove(0);
            assert(p == q0[n]);
            let serial = p.serial;
            let ghost pv = p;
            match try_send(&mut self.outbox, p.item) {
                SendOutcome::Sent => {
                    self.sent = Ghost(self.sent@.push(pv));
                    proof {
                        assert(q0.take(n + 1) =~= q0.take(n).push(pv));
                        assert(self.sent@ =~= s0 + q0.take(n + 1));
                        assert(queue@ =~= q0.skip(n + 1));
                        assert(items_of(self.sent@) =~= items_of(sent_before).push(pv.item));
                        assert(self.outbox.attempts@ =~= a0 + Seq::new((n + 1) as nat, |i: int| Attempt::Accepted));
                        assert(serials_of(q) =~= seq![serial] + serials_of(queue@));
                        assert(serials_of(self.sent@) =~= serials_of(sent_before).push(serial));
                        assert(serials_of(self.sent@) + serials_of(queue@) =~= serials_of(sent_before) + serials_of(q));
                    }
                },
                SendOutcome::Full(item) => {
                    queue.insert(0, Pending { serial, item });
                    assert(queue@ =~= q);
                    self.backlog = queue;
                    assert(self.backlog@ == q0.skip(n));
                    assert(items_of(self.sent@) =~= items_of(s0) + items_of(q0.take(n)));
                    assert(self.outbox.attempts@ =~= a0 + step_attempts(n as nat, Publish::Backlogged));
                    return Publish::Backlogged;
                },
                SendOutcome::Closed(item) => {
                    queue.insert(0, Pending { serial, item });
                    assert(queue@ =~= q);
                    self.backlog = queue;
                    assert(self.backlog@ == q0.skip(n));
                    assert(items_of(self.sent@) =~= items_of(s0) + items_of(q0.take(n)));
                    assert(self.outbox.attempts@ =~= a0 + step_attempts(n as nat, Publish::Closed));
                    return Publish::Closed;
                },
            }
        }
        assert(self.backlog@ =~= q0.skip(q0.len() as int));
        assert(items_of(self.sent@) =~= items_of(s0) + items_of(q0.take(self.sent@.len() - s0.len())));
        assert(self.outbox.attempts@ =~= a0 + step_attempts((self.sent@.len() - s0.len()) as nat, Publish::Drained));
        assert(serials_of(self.backlog@) =~= Seq::empty());
        assert(serials_of(self.sent@) + serials_of(self.backlog@) =~= serials_of(self.sent@));
        Publish::Drained
    }
}

/// Backpressure loses, duplicates and reorders nothing: the values that the
/// channel accepted are those of the records sent, which are the front of what
/// the publisher was handed, in the same order, and what it still holds is
/// exactly the rest; once nothing waits, everything discovered has been
/// delivered.
pub proof fn delivery_is_ordered_and_complete<T>(p: &Publisher<T>)
    requires
        p.wf(),
    ensures
        p.accepted() == items_of(p.sent()),
        p.delivered().len() <= p.discovered().len(),
        p.delivered() == p.discovered().take(p.delivered().len() as int),
        p.waiting() == p.discovered().skip(p.delivered().len() as int),
        p.waiting().len() == 0 ==> p.delivered() == p.discovered(),
{
    assert(p.delivered() =~= p.discovered().take(p.delivered().len() as int));
    assert(p.waiting() =~= p.discovered().skip(p.delivered().len() as int));
    if p.waiting().len() == 0 {
        assert(p.delivered() =~= p.discovered());
    }
}

} // verus!
