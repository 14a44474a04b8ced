//! Order entry as a session, not a socket: sequenced, heartbeated, resendable.
//!
//! An order stream needs three things a raw socket does not give it. Every
//! message must be numbered, so a reconnecting client and venue can agree on
//! what was received. Silence must be distinguishable from death, so a
//! heartbeat interval exists. And a gap must be fillable, so sent messages are
//! retained until acknowledged.
//!
//! Times are nanoseconds from an epoch of the caller's choosing.

use vstd::prelude::*;

use crate::pipeline;
use crate::pipeline::OrderCommand;

verus! {

/// Messages retained for retransmission.
///
/// A gap wider than this means the peer is far enough behind that resending is
/// the wrong answer: the session is torn down and re-established.
pub const RETAIN: u64 = 4_096;

/// What arrived from the venue.
#[derive(Clone, Copy, Debug, Eq, PartialEq, Structural)]
pub enum Inbound {
    /// The venue has everything up to and including this sequence.
    Acknowledged(u64),
    /// The venue is missing from this sequence onward.
    ResendFrom(u64),
    /// Proof of life, nothing more.
    Heartbeat,
}

/// What the session decided the caller should do now.
#[derive(Clone, Copy, Debug, Eq, PartialEq, Structural)]
pub enum Action {
    /// Nothing is due.
    Idle,
    /// Send a heartbeat: the peer has heard nothing for an interval.
    SendHeartbeat,
    /// The peer has been silent past its deadline. It is gone; reconnect.
    PeerIsDead,
}

/// Where a session stands.
#[verifier::ext_equal]
pub struct Window {
    pub next_sequence: nat,
    /// The highest sequence that the venue confirmed.
    pub acknowledged: nat,
    /// The retain ring.
    pub retained: Seq<Seq<u8>>,
    pub heartbeat_every: nat,
    pub peer_timeout: nat,
    pub last_sent: nat,
    pub last_heard: nat,
    /// Something went out since the last poll.
    pub sent_since_poll: bool,
    pub heartbeats_sent: nat,
    pub resends: nat,
}

/// The ring slot of a sequence.
pub open spec fn slot_of(sequence: nat) -> int {
    sequence as int % RETAIN as int
}

/// How long ago `then` was; nothing where it lies ahead.
pub open spec fn since(now: nat, then: nat) -> nat {
    if now > then {
        (now - then) as nat
    } else {
        0
    }
}

impl Window {
    pub open spec fn fresh(heartbeat_every: nat, peer_timeout: nat, now: nat) -> Window {
        Window {
            next_sequence: 1,
            acknowledged: 0,
            retained: Seq::new(
                RETAIN as nat,
                |i: int| Seq::new(pipeline::ORDER_WIRE_LEN as nat, |j: int| 0u8),
            ),
            heartbeat_every,
            peer_timeout,
            last_sent: now,
            last_heard: now,
            sent_since_poll: false,
            heartbeats_sent: 0,
            resends: 0,
        }
    }

    /// Messages the venue has not confirmed.
    pub open spec fn in_flight(self) -> int {
        self.next_sequence - 1 - self.acknowledged
    }

    /// Whether the ring would overwrite a message the venue may still ask for.
    pub open spec fn full(self) -> bool {
        self.in_flight() >= RETAIN
    }

    /// An order's bytes under the next sequence, which rides in the client
    /// order ID: the venue echoes it back on acknowledgement.
    pub open spec fn stamped(self, order: OrderCommand) -> Seq<u8> {
        pipeline::order_bytes(
            OrderCommand { client_order_id: self.next_sequence as u64, ..order },
        )
    }

    pub open spec fn prepare(self, order: OrderCommand) -> Window {
        if self.full() {
            self
        } else {
            Window {
                retained: self.retained.update(slot_of(self.next_sequence), self.stamped(order)),
                next_sequence: self.next_sequence + 1,
                sent_since_poll: true,
                ..self
            }
        }
    }

    /// A stale acknowledgement never rewinds the window.
    pub open spec fn received(self, inbound: Inbound, now: nat) -> Window {
        let heard = Window { last_heard: now, ..self };
        match inbound {
            Inbound::Acknowledged(sequence) => if sequence > self.acknowledged {
                Window { acknowledged: sequence as nat, ..heard }
            } else {
                heard
            },
            Inbound::ResendFrom(_) => heard,
            Inbound::Heartbeat => heard,
        }
    }

    /// A poll folds in any send since the last one.
    pub open spec fn polled(self, now: nat) -> Window {
        if self.sent_since_poll {
            Window { sent_since_poll: false, last_sent: now, ..self }
        } else {
            self
        }
    }

    pub open spec fn due(self, now: nat) -> Action {
        if since(now, self.last_heard) >= self.peer_timeout {
            Action::PeerIsDead
        } else if since(now, self.polled(now).last_sent) >= self.heartbeat_every {
            Action::SendHeartbeat
        } else {
            Action::Idle
        }
    }

    /// Whether a request from `sequence` on can be answered.
    pub open spec fn can_resend(self, sequence: nat) -> bool {
        sequence >= self.next_sequence || sequence > self.acknowledged && self.next_sequence
            - sequence <= RETAIN
    }

    /// What is replayed from `sequence` on.
    pub open spec fn replayed(self, sequence: nat) -> Seq<Seq<u8>> {
        if self.can_resend(sequence) && sequence < self.next_sequence {
            Seq::new(
                (self.next_sequence - sequence) as nat,
                |i: int| self.retained[slot_of((sequence + i) as nat)],
            )
        } else {
            Seq::empty()
        }
    }

    /// The ring has its slots, and never holds more than that unconfirmed.
    pub open spec fn wf(self) -> bool {
        &&& self.next_sequence >= 1
        &&& self.retained.len() == RETAIN
        &&& self.in_flight() <= RETAIN
    }

    /// The venue has confirmed nothing that was not sent.
    pub open spec fn valid(self) -> bool {
        &&& self.wf()
        &&& self.acknowledged < self.next_sequence
    }
}

/// An order-entry session over a stream that is already connected.
#[derive(Debug)]
pub struct Session {
    next_sequence: u64,
    acknowledged: u64,
    retained: Vec<[u8; 32]>,
    /// Interval after which silence from us is filled with a heartbeat.
    heartbeat_every: u64,
    /// Silence from the peer that means it is gone. Conventionally a small
    /// multiple of the interval, so one lost heartbeat is not a funeral.
    peer_timeout: u64,
    last_sent: u64,
    last_heard: u64,
    /// Something went out since the last poll; see [`Session::prepare`].
    sent_since_poll: bool,
    heartbeats_sent: u64,
    resends: u64,
}

impl View for Session {
    type V = Window;

    closed spec fn view(&self) -> Window {
        Window {
            next_sequence: self.next_sequence as nat,
            acknowledged: self.acknowledged as nat,
            retained: self.retained@.map_values(|bytes: [u8; 32]| bytes@),
            heartbeat_every: self.heartbeat_every as nat,
            peer_timeout: self.peer_timeout as nat,
            last_sent: self.last_sent as nat,
            last_heard: self.last_heard as nat,
            sent_since_poll: self.sent_since_poll,
            heartbeats_sent: self.heartbeats_sent as nat,
            resends: self.resends as nat,
        }
    }
}

impl Session {
    #[must_use]
    pub fn new(heartbeat_every: u64, peer_timeout: u64, now: u64) -> (session: Self)
        ensures
            session@ == Window::fresh(heartbeat_every as nat, peer_timeout as nat, now as nat),
            session@.valid(),
    {
        let session = Session {
            next_sequence: 1,
            acknowledged: 0,
            retained: vec![[0u8; 32]; 4_096],
            heartbeat_every,
            peer_timeout,
            last_sent: now,
            last_heard: now,
            sent_since_poll: false,
            heartbeats_sent: 0,
            resends: 0,
        };
        proof {
            let blank = Window::fresh(
                heartbeat_every as nat,
                peer_timeout as nat,
                now as nat,
            ).retained;
            assert forall|i: int| 0 <= i < RETAIN implies session@.retained[i] == blank[i] by {
                assert(session@.retained[i] =~= blank[i]);
            }
            assert(session@.retained =~= blank);
        }
        session
    }

    /// Stamps and retains an order, returning the bytes to write.
    ///
    /// No clock read: a send only raises a flag, and [`Session::due`], which
    /// is handed the time anyway, folds the flag in.
    ///
    /// `None` when too many are unacknowledged: the ring would overwrite a
    /// message the venue may still ask for, and losing the ability to resend
    /// is worse than refusing to send. The caller sheds or waits.
    pub fn prepare(&mut self, order: &OrderCommand) -> (bytes: Option<[u8; 32]>)
        requires
            old(self)@.valid(),
            old(self)@.next_sequence < u64::MAX,
        ensures
            final(self)@.valid(),
            final(self)@ == old(self)@.prepare(*order),
            match bytes {
                Some(bytes) => !old(self)@.full() && bytes@ == old(self)@.stamped(*order),
                None => old(self)@.full(),
            },
    {
        if self.in_flight() >= RETAIN {
            return None;
        }
        let sequence = self.next_sequence;
        let slot = (sequence % RETAIN) as usize;
        let stamped = OrderCommand { client_order_id: sequence, ..*order };
        let bytes = stamped.encode();
        self.retained[slot] = bytes;
        self.next_sequence = self.next_sequence + 1;
        self.sent_since_poll = true;
        assert(self@.retained =~= old(self)@.prepare(*order).retained);
        Some(bytes)
    }

    /// Applies something the venue said.
    pub fn received(&mut self, inbound: Inbound, now: u64)
        requires
            old(self)@.wf(),
        ensures
            final(self)@.wf(),
            final(self)@ == old(self)@.received(inbound, now as nat),
    {
        self.last_heard = now;
        match inbound {
            Inbound::Acknowledged(sequence) => {
                // Monotonic: a stale acknowledgement never rewinds the window.
                if sequence > self.acknowledged {
                    self.acknowledged = sequence;
                }
            },
            Inbound::ResendFrom(_) => {},
            Inbound::Heartbeat => {},
        }
    }

    /// Messages the venue has not confirmed.
    #[must_use]
    pub fn in_flight(&self) -> (count: u64)
        requires
            self@.valid(),
        ensures
            count == self@.in_flight(),
    {
        self.next_sequence - 1 - self.acknowledged
    }

    /// Whether the venue has confirmed only what was sent.
    #[must_use]
    pub fn is_valid(&self) -> (yes: bool)
        requires
            self@.wf(),
        ensures
            yes == self@.valid(),
    {
        self.acknowledged < self.next_sequence
    }

    /// The sequence that the next order gets.
    #[must_use]
    pub fn next_sequence(&self) -> (sequence: u64)
        ensures
            sequence == self@.next_sequence,
    {
        self.next_sequence
    }

    /// What is due, given the time. Called from the idle path: two
    /// comparisons, and the folding-in of any send that happened since the
    /// last poll.
    pub fn due(&mut self, now: u64) -> (action: Action)
        requires
            old(self)@.wf(),
        ensures
            final(self)@.wf(),
            final(self)@ == old(self)@.polled(now as nat),
            action == old(self)@.due(now as nat),
    {
        if self.sent_since_poll {
            self.sent_since_poll = false;
            self.last_sent = now;
        }
        if elapsed(now, self.last_heard) >= self.peer_timeout {
            return Action::PeerIsDead;
        }
        if elapsed(now, self.last_sent) >= self.heartbeat_every {
            return Action::SendHeartbeat;
        }
        Action::Idle
    }

    /// Records that a heartbeat went out, resetting the send timer.
    pub fn heartbeat_sent(&mut self, now: u64)
        requires
            old(self)@.wf(),
            old(self)@.heartbeats_sent < u64::MAX,
        ensures
            final(self)@.wf(),
            final(self)@ == (Window {
                last_sent: now as nat,
                heartbeats_sent: old(self)@.heartbeats_sent + 1,
                ..old(self)@
            }),
    {
        self.last_sent = now;
        self.heartbeats_sent = self.heartbeats_sent + 1;
    }

    /// Replays retained messages from `sequence` onward, appending them.
    ///
    /// `false` when the request reaches past what is retained: the session
    /// cannot honour it and must be torn down rather than answer with a hole.
    pub fn resend_from(&mut self, sequence: u64, out: &mut Vec<[u8; 32]>) -> (honoured: bool)
        requires
            old(self)@.wf(),
            old(self)@.resends + old(self)@.replayed(sequence as nat).len() <= u64::MAX,
        ensures
            final(self)@.wf(),
            honoured == old(self)@.can_resend(sequence as nat),
            final(self)@ == (Window {
                resends: old(self)@.resends + old(self)@.replayed(sequence as nat).len(),
                ..old(self)@
            }),
            final(out)@.len() == old(out)@.len() + old(self)@.replayed(sequence as nat).len(),
            forall|i: int|
                #![trigger final(out)@[i]]
                0 <= i < old(out)@.len() ==> final(out)@[i] == old(out)@[i],
            forall|i: int|
                #![trigger old(self)@.replayed(sequence as nat)[i]]
                0 <= i < old(self)@.replayed(sequence as nat).len()
                    ==> final(out)@[old(out)@.len() + i]@ == old(self)@.replayed(
                    sequence as nat,
                )[i],
    {
        if sequence <= self.acknowledged || sequence >= self.next_sequence {
            return sequence >= self.next_sequence;  // nothing to do is success
        }
        if self.next_sequence - sequence > RETAIN {
            return false;
        }
        let ghost all = old(self)@.replayed(sequence as nat);
        let ghost start = out@.len();
        let mut held: u64 = sequence;
        while held < self.next_sequence
            invariant
                sequence <= held <= self.next_sequence,
                start == old(out)@.len(),
                out@.len() == start + (held - sequence),
                *self == (Session {
                    resends: (old(self).resends + (held - sequence)) as u64,
                    ..*old(self)
                }),
                old(self)@.wf(),
                all == old(self)@.replayed(sequence as nat),
                all.len() == old(self).next_sequence - sequence,
                old(self).resends + all.len() <= u64::MAX,
                all == Seq::new(
                    (old(self)@.next_sequence - sequence) as nat,
                    |i: int| old(self)@.retained[slot_of((sequence + i) as nat)],
                ),
                forall|i: int|
                    #![trigger out@[i]]
                    0 <= i < start ==> out@[i] == old(out)@[i],
                forall|i: int|
                    #![trigger all[i]]
                    0 <= i < held - sequence ==> out@[start + i]@ == all[i],
            decreases self.next_sequence - held,
        {
            let slot = (held % RETAIN) as usize;
            assert(old(self)@.retained[slot as int] == self.retained@[slot as int]@);
            let bytes = self.retained[slot];
            out.push(bytes);
            self.resends = self.resends + 1;
            held = held + 1;
        }
        true
    }

    #[must_use]
    pub fn heartbeats_sent(&self) -> (count: u64)
        ensures
            count == self@.heartbeats_sent,
    {
        self.heartbeats_sent
    }

    #[must_use]
    pub fn resends(&self) -> (count: u64)
        ensures
            count == self@.resends,
    {
        self.resends
    }
}

fn elapsed(now: u64, then: u64) -> (nanos: u64)
    ensures
        nanos == since(now as nat, then as nat),
{
    if now > then {
        now - then
    } else {
        0
    }
}

// ----------------------------------------------------------- over many messages

/// `log` is what was sent, in order from sequence one, and the ring still holds
/// its latest stretch.
pub open spec fn remembers(window: Window, log: Seq<Seq<u8>>) -> bool {
    &&& log.len() == window.next_sequence - 1
    &&& forall|sequence: int|
        #![trigger log[sequence - 1]]
        1 <= sequence < window.next_sequence && window.next_sequence - sequence <= RETAIN
            ==> window.retained[slot_of(sequence as nat)] == log[sequence - 1]
}

/// A fresh session has sent nothing.
pub proof fn lemma_fresh_remembers(heartbeat_every: nat, peer_timeout: nat, now: nat)
    ensures
        remembers(Window::fresh(heartbeat_every, peer_timeout, now), Seq::empty()),
{
}

/// A prepared order joins the log under the next sequence, and a refused one
/// does not.
pub proof fn lemma_prepare_remembers(window: Window, log: Seq<Seq<u8>>, order: OrderCommand)
    requires
        window.valid(),
        remembers(window, log),
    ensures
        remembers(
            window.prepare(order),
            if window.full() {
                log
            } else {
                log.push(window.stamped(order))
            },
        ),
{
    if !window.full() {
        let after = window.prepare(order);
        let longer = log.push(window.stamped(order));
        assert forall|sequence: int|
            #![trigger longer[sequence - 1]]
            1 <= sequence < after.next_sequence && after.next_sequence - sequence
                <= RETAIN implies after.retained[slot_of(sequence as nat)] == longer[sequence
            - 1] by {
            if sequence < window.next_sequence {
                assert(slot_of(sequence as nat) != slot_of(window.next_sequence));
                assert(longer[sequence - 1] == log[sequence - 1]);
            }
        }
    }
}

/// Hearing, polling, heartbeats and resends leave the log alone.
pub proof fn lemma_others_remember(window: Window, other: Window, log: Seq<Seq<u8>>)
    requires
        remembers(window, log),
        other.next_sequence == window.next_sequence,
        other.retained == window.retained,
    ensures
        remembers(other, log),
{
}

/// An honoured request is answered with exactly what was sent from the asked
/// sequence on, in order. Whatever is unacknowledged can be asked for.
pub proof fn lemma_resend_replays_what_was_sent(
    window: Window,
    log: Seq<Seq<u8>>,
    sequence: nat,
)
    requires
        window.valid(),
        remembers(window, log),
        window.acknowledged < sequence < window.next_sequence,
    ensures
        window.can_resend(sequence),
        window.replayed(sequence) == log.skip(sequence - 1),
{
    let replayed = window.replayed(sequence);
    let tail = log.skip(sequence - 1);
    assert forall|i: int| 0 <= i < replayed.len() implies replayed[i] == tail[i] by {
        let at = sequence + i;
        assert(window.retained[slot_of(at as nat)] == log[at - 1]);
    }
    assert(replayed =~= tail);
}

/// Each prepared order carries its sequence, and sequences count up by one.
pub proof fn lemma_stamp_is_sequence(window: Window, order: OrderCommand)
    requires
        window.valid(),
        window.next_sequence <= u64::MAX,
        !window.full(),
    ensures
        pipeline::order_from(window.stamped(order)) == Some(
            OrderCommand { client_order_id: window.next_sequence as u64, ..order },
        ),
        window.prepare(order).next_sequence == window.next_sequence + 1,
{
    pipeline::lemma_order_roundtrip(
        OrderCommand { client_order_id: window.next_sequence as u64, ..order },
    );
}

/// A full window takes an order again as soon as the venue confirms one more.
pub proof fn lemma_acknowledgement_frees(window: Window, sequence: u64, now: nat)
    requires
        window.valid(),
        window.full(),
        window.acknowledged < sequence < window.next_sequence,
    ensures
        !window.received(Inbound::Acknowledged(sequence), now).full(),
{
}

/// Confirming what was sent keeps the window valid, and so does everything
/// else that a session does.
pub proof fn lemma_stays_valid(window: Window, order: OrderCommand, inbound: Inbound, now: nat)
    requires
        window.valid(),
        inbound matches Inbound::Acknowledged(sequence) ==> sequence < window.next_sequence,
    ensures
        window.prepare(order).valid(),
        window.received(inbound, now).valid(),
        window.polled(now).valid(),
{
}

/// A stale acknowledgement never rewinds the window.
pub proof fn lemma_acknowledgement_is_monotonic(window: Window, inbound: Inbound, now: nat)
    ensures
        window.received(inbound, now).acknowledged >= window.acknowledged,
        window.received(inbound, now).in_flight() <= window.in_flight(),
{
}

/// Hearing from the peer postpones declaring it gone by a whole timeout.
pub proof fn lemma_hearing_postpones(window: Window, inbound: Inbound, heard: nat, now: nat)
    requires
        heard <= now < heard + window.peer_timeout,
    ensures
        window.received(inbound, heard).due(now) != Action::PeerIsDead,
{
}

/// A heartbeat or an order resets the send timer.
pub proof fn lemma_sending_postpones_heartbeat(window: Window, order: OrderCommand, now: nat)
    requires
        window.heartbeat_every > 0,
        !window.full(),
    ensures
        window.prepare(order).due(now) != Action::SendHeartbeat,
{
}

/// Something done with a session.
pub enum Deed {
    Prepare { order: OrderCommand },
    Hear { inbound: Inbound, now: nat },
    Poll { now: nat },
    Heartbeat { now: nat },
    Resend { sequence: nat },
}

impl Window {
    /// The session after a deed.
    pub open spec fn done(self, deed: Deed) -> Window {
        match deed {
            Deed::Prepare { order } => self.prepare(order),
            Deed::Hear { inbound, now } => self.received(inbound, now),
            Deed::Poll { now } => self.polled(now),
            Deed::Heartbeat { now } => Window {
                last_sent: now,
                heartbeats_sent: self.heartbeats_sent + 1,
                ..self
            },
            Deed::Resend { sequence } => Window {
                resends: self.resends + self.replayed(sequence).len(),
                ..self
            },
        }
    }

    pub open spec fn done_all(self, deeds: Seq<Deed>) -> Window
        decreases deeds.len(),
    {
        if deeds.len() == 0 {
            self
        } else {
            self.done_all(deeds.drop_last()).done(deeds.last())
        }
    }

    /// The orders that were prepared and not refused, in order.
    pub open spec fn orders_sent(self, deeds: Seq<Deed>) -> Seq<OrderCommand>
        decreases deeds.len(),
    {
        if deeds.len() == 0 {
            Seq::empty()
        } else {
            let before = self.orders_sent(deeds.drop_last());
            match deeds.last() {
                Deed::Prepare { order } => if self.done_all(deeds.drop_last()).full() {
                    before
                } else {
                    before.push(order)
                },
                _ => before,
            }
        }
    }

    /// The venue never confirms what was not sent.
    pub open spec fn honest(self, deeds: Seq<Deed>) -> bool
        decreases deeds.len(),
    {
        deeds.len() == 0 || {
            &&& self.honest(deeds.drop_last())
            &&& deeds.last() matches Deed::Hear {
                inbound: Inbound::Acknowledged(sequence),
                ..
            } ==> sequence < self.done_all(deeds.drop_last()).next_sequence
        }
    }
}

/// The wire form of orders sent, numbered from one on.
pub open spec fn numbered(orders: Seq<OrderCommand>) -> Seq<Seq<u8>> {
    Seq::new(
        orders.len(),
        |i: int|
            pipeline::order_bytes(
                OrderCommand { client_order_id: (i + 1) as u64, ..orders[i] },
            ),
    )
}

proof fn lemma_history_remembers(start: Window, deeds: Seq<Deed>)
    requires
        start.valid(),
        remembers(start, Seq::empty()),
        start.honest(deeds),
    ensures
        start.done_all(deeds).valid(),
        remembers(start.done_all(deeds), numbered(start.orders_sent(deeds))),
    decreases deeds.len(),
{
    if deeds.len() == 0 {
        assert(numbered(start.orders_sent(deeds)) =~= Seq::empty());
    } else {
        let fewer = deeds.drop_last();
        lemma_history_remembers(start, fewer);
        let before = start.done_all(fewer);
        let log = numbered(start.orders_sent(fewer));
        match deeds.last() {
            Deed::Prepare { order } => {
                lemma_prepare_remembers(before, log, order);
                if !before.full() {
                    assert(numbered(start.orders_sent(deeds)) =~= log.push(before.stamped(order)));
                }
            },
            _ => lemma_others_remember(before, before.done(deeds.last()), log),
        }
    }
}

/// Whatever is done with a session, in whatever order, as long as the venue
/// confirms only what was sent: the orders it took are numbered one, two, three
/// and so on without a hole, it takes another exactly while fewer than the ring
/// holds are unconfirmed, and a resend request is answered with exactly what
/// was sent from there on, where none of it is confirmed, with nothing where
/// nothing was sent, and refused otherwise.
pub proof fn lemma_session_history(
    heartbeat_every: nat,
    peer_timeout: nat,
    now: nat,
    deeds: Seq<Deed>,
    sequence: nat,
)
    requires
        Window::fresh(heartbeat_every, peer_timeout, now).honest(deeds),
    ensures
        ({
            let start = Window::fresh(heartbeat_every, peer_timeout, now);
            let after = start.done_all(deeds);
            let orders = start.orders_sent(deeds);
            &&& after.valid()
            &&& after.next_sequence == orders.len() + 1
            &&& after.full() == (orders.len() - after.acknowledged >= RETAIN)
            &&& after.can_resend(sequence) == (sequence > after.acknowledged)
            &&& after.replayed(sequence) == (if after.acknowledged < sequence <= orders.len() {
                numbered(orders).skip(sequence - 1)
            } else {
                Seq::empty()
            })
        }),
{
    let start = Window::fresh(heartbeat_every, peer_timeout, now);
    let after = start.done_all(deeds);
    let log = numbered(start.orders_sent(deeds));
    lemma_fresh_remembers(heartbeat_every, peer_timeout, now);
    lemma_history_remembers(start, deeds);
    if after.acknowledged < sequence < after.next_sequence {
        lemma_resend_replays_what_was_sent(after, log, sequence);
    }
}

} // verus!
