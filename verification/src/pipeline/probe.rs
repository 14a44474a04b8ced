//! Probe datagrams: delete the previous order, add the next at a price that
//! cycles inside the band. Shared by the wire harness and the benchmarks so
//! both measure the same traffic.

use vstd::prelude::*;

use crate::feed;
use crate::feed::itch as wire_format;
use crate::feed::mold;
use crate::feed::mold::Header;
use crate::feed::synth;
use crate::feed::synth::itch;
use crate::feed::synth::itch::Message;
use crate::feed::Side;
use crate::wire;

verus! {

/// `PROBE00001`.
pub const SESSION: [u8; 10] = [0x50, 0x52, 0x4f, 0x42, 0x45, 0x30, 0x30, 0x30, 0x30, 0x31];

pub const FIRST_SEQUENCE: u64 = 1;

/// Shares that every probe offers.
pub const SHARES: u32 = 100;

/// The raw price of a probe: a two-thousand-cent cycle from 100 dollars up.
pub open spec fn price_spec(index: int) -> u32 {
    (1_000_000 + ((index % 0x1_0000_0000) % 2_000) * 100) as u32
}

#[must_use]
pub fn price_of(index: usize) -> (price: u32)
    ensures
        price == price_spec(index as int),
        1_000_000 <= price < 1_200_000,
{
    let step = ((index as u64 % 0x1_0000_0000) % 2_000) as u32;
    1_000_000 + step * 100
}

/// The messages of one probe.
pub open spec fn messages(previous: Option<u64>, order: u64, price: u32) -> Seq<Message> {
    let add = Message::Add { symbol: 0, order, side: Side::Bid, shares: SHARES, price };
    match previous {
        Some(previous) => seq![Message::Delete { symbol: 0, order: previous }, add],
        None => seq![add],
    }
}

#[must_use]
pub fn datagram(previous: Option<u64>, order: u64, price: u32) -> (out: Vec<u8>)
    ensures
        out@ == itch::framed_all(messages(previous, order, price)),
{
    let mut out: Vec<u8> = Vec::new();
    let add = Message::Add { symbol: 0, order, side: Side::Bid, shares: SHARES, price };
    assert(itch::framed_all(Seq::empty()) =~= Seq::empty());
    if let Some(previous) = previous {
        let delete = Message::Delete { symbol: 0, order: previous };
        itch::push_framed(&mut out, &delete);
        assert(seq![delete].drop_last() =~= Seq::empty());
        assert(out@ =~= itch::framed_all(seq![delete]));
        itch::push_framed(&mut out, &add);
        assert(seq![delete, add].drop_last() =~= seq![delete]);
        assert(out@ =~= itch::framed_all(seq![delete, add]));
    } else {
        itch::push_framed(&mut out, &add);
        assert(seq![add].drop_last() =~= Seq::empty());
        assert(out@ =~= itch::framed_all(seq![add]));
    }
    out
}

/// A probe reads back as the deletion of the order before it and the addition
/// of its own.
pub proof fn lemma_probe_read_back(previous: Option<u64>, order: u64, price: u32)
    ensures
        ({
            let sent = messages(previous, order, price);
            let bytes = itch::framed_all(sent);
            let read = wire_format::frames_spec(synth::tradfi_names(), bytes, 0);
            &&& read.events == itch::meanings(sent)
            &&& read.outcome == Ok::<usize, feed::FeedError>(bytes.len() as usize)
        }),
{
    let sent = messages(previous, order, price);
    assert(forall|i: int|
        #![trigger sent[i]]
        0 <= i < sent.len() ==> itch::symbol_of(sent[i]) < 4);
    lemma_probe_len(previous, order, price);
    itch::lemma_stream_read_back(sent);
}

proof fn lemma_probe_len(previous: Option<u64>, order: u64, price: u32)
    ensures
        itch::framed_all(messages(previous, order, price)).len() <= 59,
{
    let add = Message::Add { symbol: 0, order, side: Side::Bid, shares: SHARES, price };
    itch::lemma_body_len(add);
    wire::lemma_be_bytes_len(36, 2);
    assert(itch::framed_all(Seq::empty()) =~= Seq::empty());
    match previous {
        Some(previous) => {
            let delete = Message::Delete { symbol: 0, order: previous };
            itch::lemma_body_len(delete);
            wire::lemma_be_bytes_len(19, 2);
            assert(seq![delete].drop_last() =~= Seq::empty());
            assert(seq![delete, add].drop_last() =~= seq![delete]);
            assert(itch::framed_all(seq![delete]).len() == 21);
        },
        None => {
            assert(seq![add].drop_last() =~= Seq::empty());
        },
    }
}

/// A stream of probes, framed and sequenced as a venue would.
#[derive(Debug)]
pub struct Probes {
    index: usize,
    sequence: u64,
}

/// The probe with a given index: its order, and the order before it.
pub open spec fn probe_messages(index: nat) -> Seq<Message> {
    messages(
        if index > 0 {
            Some(index as u64)
        } else {
            None
        },
        (index + 1) as u64,
        price_spec(index as int),
    )
}

/// The sequence of a probe's first message: one message, then two each.
pub open spec fn probe_sequence(index: nat) -> nat {
    if index == 0 {
        1
    } else {
        (2 * index) as nat
    }
}

/// A probe on the wire: header and messages.
pub open spec fn probe_packet(index: nat) -> Seq<u8> {
    mold::header_bytes(
        Header {
            session: SESSION,
            sequence: probe_sequence(index) as u64,
            count: probe_messages(index).len() as u16,
        },
    ) + itch::framed_all(probe_messages(index))
}

impl Probes {
    /// Probes sent so far.
    pub closed spec fn sent(&self) -> nat {
        self.index as nat
    }

    pub closed spec fn wf(&self) -> bool {
        self.sequence == probe_sequence(self.index as nat)
    }

    #[must_use]
    pub fn new() -> (probes: Self)
        ensures
            probes.wf(),
            probes.sent() == 0,
    {
        Probes { index: 0, sequence: FIRST_SEQUENCE }
    }

    /// Whether there is a number left for another probe.
    #[must_use]
    pub fn has_next(&self) -> (yes: bool)
        ensures
            yes == (2 * self.sent() + 2 <= usize::MAX),
    {
        self.index < usize::MAX / 2
    }

    /// The next probe.
    pub fn next_datagram(&mut self) -> (packet: Vec<u8>)
        requires
            old(self).wf(),
            2 * old(self).sent() + 2 <= usize::MAX,
        ensures
            final(self).wf(),
            final(self).sent() == old(self).sent() + 1,
            packet@ == probe_packet(old(self).sent()),
    {
        let order = self.index as u64 + 1;
        let previous: Option<u64> = if self.index > 0 {
            Some(self.index as u64)
        } else {
            None
        };
        let count: u16 = if self.index > 0 {
            2
        } else {
            1
        };
        let header = Header { session: SESSION, sequence: self.sequence, count };
        let mut packet: Vec<u8> = Vec::new();
        packet.extend_from_slice(&header.encode());
        let payload = datagram(previous, order, price_of(self.index));
        packet.extend_from_slice(&payload);
        assert(packet@ =~= probe_packet(old(self).sent()));
        self.index = self.index + 1;
        self.sequence = self.sequence + count as u64;
        packet
    }
}

} // verus!
