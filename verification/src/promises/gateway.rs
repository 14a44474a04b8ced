//! The gateway and the counterparty: bytes into acknowledgements, spins into
//! polls, and the schedule of the probes.

use vstd::prelude::*;

use crate::feed;
use crate::feed::synth::itch;
use crate::feed::{Event, Kind, Side};
use crate::pipeline::affinity;
use crate::pipeline::gateway;
use crate::pipeline::gateway::GatewayState;
use crate::pipeline::probe;
use crate::pipeline::session::Window;
use crate::pipeline::venue;
use crate::pipeline::OrderCommand;
use crate::promises;
use crate::promises::{eight, eight_up, two};
use crate::wire;

verus! {

/// The greater of two numbers.
pub open spec fn greater(a: int, b: int) -> int {
    if a < b {
        b
    } else {
        a
    }
}

/// Bytes from the venue are kept until eight are there. Those are a sequence,
/// least significant byte first, that everything up to is confirmed; a lesser one
/// than before changes nothing but that the venue was heard.
#[verifier::rlimit(30)]
pub proof fn lemma_acknowledgement_is_gathered(state: GatewayState, bytes: Seq<u8>, now: nat)
    requires
        state.partial.len() < 8,
        state.partial.len() + bytes.len() <= 8,
    ensures
        ({
            let after = state.heard(bytes, now);
            let held = state.partial + bytes;
            &&& after.idle == state.idle
            &&& held.len() < 8 ==> after.partial == held && after.window == state.window
            &&& held.len() == 8 ==> {
                &&& after.partial.len() == 0
                &&& after.window == (Window {
                    acknowledged: greater(
                        eight_up(held, 0),
                        state.window.acknowledged as int,
                    ) as nat,
                    last_heard: now,
                    ..state.window
                })
            }
        }),
{
    gateway::lemma_gathered(state.partial, bytes);
    if state.partial.len() + bytes.len() == 8 {
        promises::lemma_eight_up(state.partial + bytes);
    }
}

/// An order starts the count of spins again and leaves the bytes gathered alone;
/// a spin counts one on, round the end, and touches nothing else. Every 4,096th
/// is one to poll on.
pub proof fn lemma_orders_and_spins(state: GatewayState, order: OrderCommand)
    ensures
        state.order(order).idle == 0,
        state.order(order).partial == state.partial,
        state.order(order).window == state.window.prepare(order),
        state.idle < u32::MAX ==> state.spin().idle == state.idle + 1,
        state.idle == u32::MAX ==> state.spin().idle == 0,
        state.spin().window == state.window,
        state.spin().partial == state.partial,
        gateway::POLL_EVERY == 4_096,
{
}

/// Every 256th order is acknowledged, with the number in its first eight bytes;
/// with zero where the bytes hold no order.
pub proof fn lemma_what_is_acknowledged(index: usize, order: [u8; 32], bytes: Option<[u8; 8]>)
    requires
        call_ensures(venue::acknowledgement, (index, &order), bytes),
    ensures
        bytes is Some <==> (index + 1) % 256 == 0,
        bytes matches Some(sent) ==> eight_up(sent@, 0) == (if order@[10] <= 1 {
            eight_up(order@, 0)
        } else {
            0
        }),
{
    promises::lemma_eight_up(order@.subrange(0, 8));
    if let Some(sent) = bytes {
        wire::lemma_pow256();
        wire::lemma_le_roundtrip(venue::acknowledged(order@) as nat, 8);
        promises::lemma_eight_up(sent@);
    }
}

/// A tenth of the probes warm up; an answer is late by how long after its due
/// time it came; a probe is due one period after the one before, up to the
/// 4,294,967,295th.
pub proof fn lemma_schedule(
    probes: usize,
    count: usize,
    arrived: u64,
    due: u64,
    late: u64,
    rate: u64,
    index: usize,
    nanos: u64,
)
    requires
        rate > 0,
        call_ensures(venue::warmup, (probes,), count),
        call_ensures(venue::lateness, (arrived, due), late),
        call_ensures(venue::due_nanos, (rate, index), nanos),
    ensures
        10 * count <= probes < 10 * count + 10,
        arrived >= due ==> late == arrived - due,
        arrived <= due ==> late == 0,
        index <= 0xffff_ffff ==> nanos == (1_000_000_000int / rate as int) * index,
        index > 0xffff_ffff ==> nanos == (1_000_000_000int / rate as int) * 0xffff_ffff,
{
}

/// The price of a probe starts at 100 dollars and goes up a cent with every
/// probe, through two thousand of them and then again.
pub proof fn lemma_probe_prices(index: int)
    requires
        0 <= index < 0x1_0000_0000,
    ensures
        probe::price_spec(0) == 1_000_000,
        (index + 1) % 2_000 != 0 && index + 1 < 0x1_0000_0000 ==> probe::price_spec(index + 1)
            == probe::price_spec(index) + 100,
        (index + 1) % 2_000 == 0 && index + 1 < 0x1_0000_0000 ==> probe::price_spec(index + 1)
            == 1_000_000,
        probe::price_spec(index + 0x1_0000_0000) == probe::price_spec(index),
{
}

/// A probe takes the order before it off and puts its own, numbered one more, on
/// the bid of the first symbol: a hundred shares at its price.
#[verifier::rlimit(30)]
pub proof fn lemma_what_a_probe_says(index: nat)
    requires
        index < u64::MAX,
    ensures
        ({
            let events = itch::meanings(probe::probe_messages(index));
            let gone = Event {
                kind: Kind::Delete,
                side: Side::Bid,
                symbol: 0,
                price: 0,
                qty: 0,
                order_id: index as u64,
                aux: 0,
            };
            let new = Event {
                kind: Kind::Add,
                side: Side::Bid,
                symbol: 0,
                price: (probe::price_spec(index as int) * 10_000) as i64,
                qty: 10_000_000_000,
                order_id: (index + 1) as u64,
                aux: 0,
            };
            &&& index == 0 ==> events == seq![new]
            &&& index > 0 ==> events == seq![gone, new]
        }),
{
    let sent = probe::probe_messages(index);
    let events = itch::meanings(sent);
    if index == 0 {
        assert(events.len() == 1);
    } else {
        assert(events.len() == 2);
    }
}

/// A probe's datagram carries the session `PROBE00001`, the number of its first
/// message and how many it holds: one in the first, two in every other.
#[verifier::rlimit(30)]
pub proof fn lemma_what_a_probe_carries(index: nat)
    requires
        2 * index + 2 <= u64::MAX,
    ensures
        ({
            let packet = probe::probe_packet(index);
            &&& packet.len() >= 20
            &&& packet.take(10) == seq![
                0x50u8,
                0x52,
                0x4f,
                0x42,
                0x45,
                0x30,
                0x30,
                0x30,
                0x30,
                0x31,
            ]
            &&& eight(packet, 10) == (if index == 0 {
                1int
            } else {
                2 * index as int
            })
            &&& two(packet, 18) == (if index == 0 {
                1int
            } else {
                2
            })
            &&& packet.skip(20) == itch::framed_all(probe::probe_messages(index))
        }),
{
    let header = feed::mold::Header {
        session: probe::SESSION,
        sequence: probe::probe_sequence(index) as u64,
        count: probe::probe_messages(index).len() as u16,
    };
    let payload = itch::framed_all(probe::probe_messages(index));
    let packet = probe::probe_packet(index);
    feed::mold::lemma_header_roundtrip(header, payload);
    promises::lemma_eight(packet.subrange(10, 18));
    promises::lemma_two(packet.subrange(18, 20));
    assert(packet.take(10) =~= packet.subrange(0, 10));
    wire::lemma_be_bytes_len(header.sequence as nat, 8);
    wire::lemma_be_bytes_len(header.count as nat, 2);
    assert(packet.skip(20) =~= payload);
    assert(probe::SESSION@ =~= seq![
        0x50u8,
        0x52,
        0x4f,
        0x42,
        0x45,
        0x30,
        0x30,
        0x30,
        0x30,
        0x31,
    ]);
}

/// The mask of a core has exactly that core's bit; there is none for a core that
/// the mask has no bit for.
pub proof fn lemma_mask(core: usize, mask: Option<usize>)
    requires
        call_ensures(affinity::affinity_mask, (core,), mask),
    ensures
        core >= usize::BITS ==> mask is None,
        core < usize::BITS ==> mask is Some && mask->0 == vstd::arithmetic::power2::pow2(
            core as nat,
        ),
{
    if core < usize::BITS {
        vstd::bits::lemma_usize_pow2_no_overflow(core as nat);
        vstd::bits::lemma_usize_shl_is_mul(1, core);
    }
}

} // verus!
