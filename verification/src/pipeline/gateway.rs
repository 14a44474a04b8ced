//! The gateway's decisions: orders out through the session, and
//! acknowledgements and heartbeat timing polled only when there is no order.
//!
//! A clock read or a socket poll per order would cost more than the order
//! does.

use vstd::prelude::*;

use crate::pipeline::session::{Action, Inbound, Session, Window};
use crate::pipeline::OrderCommand;
use crate::wire;

verus! {

/// Idle spins between polls of the inbound socket and the clock. Each spin is
/// a few nanoseconds, so this is tens of microseconds of granularity against a
/// heartbeat measured in seconds.
pub const POLL_EVERY: u32 = 4_096;

/// An acknowledgement on the wire: the highest sequence the venue holds,
/// little-endian.
pub const ACKNOWLEDGEMENT_LEN: usize = 8;

/// Where the gateway stands.
#[verifier::ext_equal]
pub struct GatewayState {
    pub window: Window,
    /// Bytes of an acknowledgement that has not arrived whole.
    pub partial: Seq<u8>,
    /// Spins since the last order.
    pub idle: u32,
}

/// What is left over, and the acknowledgements completed, once `bytes` have
/// arrived behind `partial`.
pub open spec fn gathered(partial: Seq<u8>, bytes: Seq<u8>) -> (Seq<u8>, Seq<u64>)
    decreases bytes.len(),
{
    if bytes.len() == 0 {
        (partial, Seq::empty())
    } else {
        let (before, done) = gathered(partial, bytes.drop_last());
        let held = before.push(bytes.last());
        if held.len() == ACKNOWLEDGEMENT_LEN {
            (Seq::empty(), done.push(wire::le_value(held) as u64))
        } else {
            (held, done)
        }
    }
}

/// The bytes of acknowledgements, one after the other.
pub open spec fn acknowledgement_bytes(sequences: Seq<u64>) -> Seq<u8>
    decreases sequences.len(),
{
    if sequences.len() == 0 {
        Seq::empty()
    } else {
        acknowledgement_bytes(sequences.drop_last()) + wire::le_bytes(
            sequences.last() as nat,
            ACKNOWLEDGEMENT_LEN as nat,
        )
    }
}

impl GatewayState {
    /// An order taken from the strategy.
    pub open spec fn order(self, order: OrderCommand) -> GatewayState {
        GatewayState { window: self.window.prepare(order), idle: 0, ..self }
    }

    /// A spin with no order waiting.
    pub open spec fn spin(self) -> GatewayState {
        GatewayState {
            idle: if self.idle == u32::MAX {
                0
            } else {
                (self.idle + 1) as u32
            },
            ..self
        }
    }

    /// Bytes read from the venue, no more than complete one acknowledgement.
    pub open spec fn heard(self, bytes: Seq<u8>, now: nat) -> GatewayState {
        let (partial, done) = gathered(self.partial, bytes);
        GatewayState {
            window: if done.len() > 0 {
                self.window.received(Inbound::Acknowledged(done[0]), now)
            } else {
                self.window
            },
            partial,
            ..self
        }
    }
}

/// The order gateway.
#[derive(Debug)]
pub struct Gateway {
    session: Session,
    inbound: [u8; 8],
    /// TCP owes no respect to message boundaries, so an acknowledgement can
    /// arrive split. Bytes accumulate until eight are held.
    inbound_filled: usize,
    idle: u32,
}

impl View for Gateway {
    type V = GatewayState;

    closed spec fn view(&self) -> GatewayState {
        GatewayState {
            window: self.session@,
            partial: self.inbound@.take(self.inbound_filled as int),
            idle: self.idle,
        }
    }
}

impl Gateway {
    pub closed spec fn wf(&self) -> bool {
        &&& self.inbound_filled < ACKNOWLEDGEMENT_LEN
        &&& self.session@.wf()
    }

    #[must_use]
    pub fn new(session: Session) -> (gateway: Self)
        requires
            session@.wf(),
        ensures
            gateway.wf(),
            gateway@ == (GatewayState {
                window: session@,
                partial: Seq::empty(),
                idle: 0,
            }),
    {
        let gateway = Gateway { session, inbound: [0u8; 8], inbound_filled: 0, idle: 0 };
        assert(gateway@.partial =~= Seq::empty());
        gateway
    }

    /// The session that orders go out through.
    #[must_use]
    pub fn session(&self) -> (session: &Session)
        requires
            self.wf(),
        ensures
            session@ == self@.window,
            session@.wf(),
    {
        &self.session
    }

    /// Takes an order to the wire: the bytes to write, or `None` when every
    /// retained slot is unacknowledged. Sending would then lose the ability
    /// to resend, which is worse than not sending.
    pub fn order(&mut self, order: &OrderCommand) -> (bytes: Option<[u8; 32]>)
        requires
            old(self).wf(),
            old(self)@.window.valid(),
            old(self)@.window.next_sequence < u64::MAX,
        ensures
            final(self).wf(),
            final(self)@ == old(self)@.order(*order),
            match bytes {
                Some(bytes) => !old(self)@.window.full() && bytes@ == old(self)@.window.stamped(
                    *order,
                ),
                None => old(self)@.window.full(),
            },
    {
        self.idle = 0;
        self.session.prepare(order)
    }

    /// Counts a spin with no order waiting, and says whether it is time to
    /// poll the socket and the clock.
    pub fn spin(&mut self) -> (poll: bool)
        requires
            old(self).wf(),
        ensures
            final(self).wf(),
            final(self)@ == old(self)@.spin(),
            poll == (final(self)@.idle % POLL_EVERY == 0),
    {
        self.idle = self.idle.wrapping_add(1);
        self.idle % POLL_EVERY == 0
    }

    /// The bytes that complete an acknowledgement: the most to read at once.
    #[must_use]
    pub fn wanted(&self) -> (bytes: usize)
        requires
            self.wf(),
        ensures
            bytes == ACKNOWLEDGEMENT_LEN - self@.partial.len(),
            bytes > 0,
    {
        ACKNOWLEDGEMENT_LEN - self.inbound_filled
    }

    /// Takes in bytes read from the venue, and hands the session the
    /// acknowledgement that they complete.
    pub fn heard(&mut self, bytes: &[u8], now: u64)
        requires
            old(self).wf(),
            bytes@.len() <= ACKNOWLEDGEMENT_LEN - old(self)@.partial.len(),
        ensures
            final(self).wf(),
            final(self)@ == old(self)@.heard(bytes@, now as nat),
    {
        let ghost partial = self@.partial;
        let mut i: usize = 0;
        while i < bytes.len()
            invariant
                i <= bytes@.len(),
                self.inbound_filled == partial.len() + i,
                partial.len() + bytes@.len() <= ACKNOWLEDGEMENT_LEN,
                self.inbound@.take(self.inbound_filled as int) == partial + bytes@.take(i as int),
                self.session == old(self).session,
                self.idle == old(self).idle,
            decreases bytes@.len() - i,
        {
            let ghost before = self.inbound@.take(self.inbound_filled as int);
            self.inbound[self.inbound_filled] = bytes[i];
            self.inbound_filled = self.inbound_filled + 1;
            i = i + 1;
            proof {
                let after = self.inbound@.take(self.inbound_filled as int);
                assert(after =~= before.push(bytes@[i - 1]));
                assert(bytes@.take(i as int) =~= bytes@.take(i - 1).push(bytes@[i - 1]));
                assert(after =~= partial + bytes@.take(i as int));
            }
        }
        proof {
            assert(bytes@.take(i as int) =~= bytes@);
            lemma_gathered(partial, bytes@);
        }
        if self.inbound_filled == ACKNOWLEDGEMENT_LEN {
            assert(self.inbound@.take(8) =~= self.inbound@);
            let sequence = wire::read_le(&self.inbound);
            self.inbound_filled = 0;
            self.session.received(Inbound::Acknowledged(sequence), now);
            assert(self@.partial =~= Seq::empty());
        }
    }

    /// What the session says is due.
    pub fn due(&mut self, now: u64) -> (action: Action)
        requires
            old(self).wf(),
        ensures
            final(self).wf(),
            action == old(self)@.window.due(now as nat),
            final(self)@ == (GatewayState {
                window: old(self)@.window.polled(now as nat),
                ..old(self)@
            }),
    {
        self.session.due(now)
    }

    /// Records that a heartbeat went out.
    pub fn heartbeat_sent(&mut self, now: u64)
        requires
            old(self).wf(),
            old(self)@.window.heartbeats_sent < u64::MAX,
        ensures
            final(self).wf(),
            final(self)@ == (GatewayState {
                window: Window {
                    last_sent: now as nat,
                    heartbeats_sent: old(self)@.window.heartbeats_sent + 1,
                    ..old(self)@.window
                },
                ..old(self)@
            }),
    {
        self.session.heartbeat_sent(now);
    }
}

/// Up to one acknowledgement's worth of bytes completes it or adds to it.
pub proof fn lemma_gathered(partial: Seq<u8>, bytes: Seq<u8>)
    requires
        partial.len() < ACKNOWLEDGEMENT_LEN,
        partial.len() + bytes.len() <= ACKNOWLEDGEMENT_LEN,
    ensures
        gathered(partial, bytes) == (if partial.len() + bytes.len() == ACKNOWLEDGEMENT_LEN {
            (Seq::<u8>::empty(), seq![wire::le_value(partial + bytes) as u64])
        } else {
            (partial + bytes, Seq::<u64>::empty())
        }),
    decreases bytes.len(),
{
    if bytes.len() == 0 {
        assert(partial + bytes =~= partial);
    } else {
        lemma_gathered(partial, bytes.drop_last());
        assert((partial + bytes.drop_last()).push(bytes.last()) =~= partial + bytes);
        assert(Seq::<u64>::empty().push(wire::le_value(partial + bytes) as u64) =~= seq![
            wire::le_value(partial + bytes) as u64,
        ]);
    }
}

/// How the stream splits into reads does not matter: reading `a` and then `b`
/// completes what reading both at once completes.
pub proof fn lemma_split_reads_agree(partial: Seq<u8>, a: Seq<u8>, b: Seq<u8>)
    ensures
        ({
            let first = gathered(partial, a);
            let second = gathered(first.0, b);
            gathered(partial, a + b) == (second.0, first.1 + second.1)
        }),
    decreases b.len(),
{
    let first = gathered(partial, a);
    if b.len() == 0 {
        assert(a + b =~= a);
        assert(first.1 + Seq::<u64>::empty() =~= first.1);
    } else {
        assert((a + b).drop_last() =~= a + b.drop_last());
        lemma_split_reads_agree(partial, a, b.drop_last());
        let (before, done) = gathered(first.0, b.drop_last());
        let held = before.push(b.last());
        assert((first.1 + done).push(wire::le_value(held) as u64) =~= first.1 + done.push(
            wire::le_value(held) as u64,
        ));
    }
}

/// What the venue acknowledged is what the gateway gathers, in order, with
/// nothing left over.
pub proof fn lemma_acknowledgements_read_back(sequences: Seq<u64>)
    ensures
        gathered(Seq::empty(), acknowledgement_bytes(sequences)) == (
            Seq::<u8>::empty(),
            sequences,
        ),
    decreases sequences.len(),
{
    if sequences.len() == 0 {
        assert(sequences =~= Seq::<u64>::empty());
    } else {
        let before = sequences.drop_last();
        let last = wire::le_bytes(sequences.last() as nat, ACKNOWLEDGEMENT_LEN as nat);
        lemma_acknowledgements_read_back(before);
        lemma_split_reads_agree(Seq::empty(), acknowledgement_bytes(before), last);
        wire::lemma_pow256();
        wire::lemma_le_roundtrip(sequences.last() as nat, ACKNOWLEDGEMENT_LEN as nat);
        lemma_gathered(Seq::empty(), last);
        assert(Seq::<u8>::empty() + last =~= last);
        assert(before + seq![sequences.last()] =~= sequences);
    }
}

} // verus!
