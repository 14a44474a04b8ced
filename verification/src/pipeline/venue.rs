//! The counterparty's decisions: when it acknowledges, when a probe is due,
//! and how late its answer was.

use vstd::prelude::*;

use crate::pipeline;
use crate::pipeline::gateway;
use crate::pipeline::OrderCommand;
use crate::wire;

verus! {

/// Orders to an acknowledgement: in batches, as a real venue does, so the
/// sender's retain window drains.
pub const ACKNOWLEDGE_EVERY: usize = 256;

/// The sequence that an order's bytes carry; zero where they hold no order.
pub open spec fn acknowledged(order: Seq<u8>) -> u64 {
    match pipeline::order_from(order) {
        Some(order) => order.client_order_id,
        None => 0,
    }
}

/// The acknowledgement owed once the order with this index has arrived.
#[must_use]
pub fn acknowledgement(index: usize, order: &[u8; 32]) -> (bytes: Option<[u8; 8]>)
    requires
        index < usize::MAX,
    ensures
        match bytes {
            Some(bytes) => (index + 1) % ACKNOWLEDGE_EVERY as int == 0 && bytes@
                == wire::le_bytes(
                acknowledged(order@) as nat,
                gateway::ACKNOWLEDGEMENT_LEN as nat,
            ),
            None => (index + 1) % ACKNOWLEDGE_EVERY as int != 0,
        },
{
    if (index + 1) % ACKNOWLEDGE_EVERY != 0 {
        return None;
    }
    let sequence: u64 = match OrderCommand::decode(order) {
        Some(order) => order.client_order_id,
        None => 0,
    };
    let mut bytes: Vec<u8> = Vec::new();
    wire::put_le(&mut bytes, sequence, 8);
    proof {
        wire::lemma_le_bytes_len(sequence as nat, 8);
    }
    let mut out = [0u8; 8];
    let mut i: usize = 0;
    while i < 8
        invariant
            i <= 8,
            bytes@.len() == 8,
            out@.len() == 8,
            forall|j: int| 0 <= j < i ==> out@[j] == bytes@[j],
        decreases 8 - i,
    {
        out[i] = bytes[i];
        i = i + 1;
    }
    assert(out@ =~= bytes@);
    Some(out)
}

/// Probes sent before the samples count.
#[must_use]
pub fn warmup(probes: usize) -> (count: usize)
    ensures
        count == probes / 10,
{
    probes / 10
}

pub const NANOS_PER_SECOND: u64 = 1_000_000_000;

/// How far into the schedule a probe is due: one period per probe before it.
pub open spec fn due(rate: nat, index: nat) -> nat {
    let counted = if index <= u32::MAX {
        index
    } else {
        u32::MAX as nat
    };
    (NANOS_PER_SECOND as nat / rate) * counted
}

/// When a probe is due, in nanoseconds from the schedule's start.
///
/// The schedule is shared arithmetic rather than shared state: sender and
/// reader compute it alike, so the reader knows what each arrival was owed
/// without the sender telling it.
#[must_use]
pub fn due_nanos(rate: u64, index: usize) -> (nanos: u64)
    requires
        rate > 0,
    ensures
        nanos == due(rate as nat, index as nat),
{
    let period = NANOS_PER_SECOND / rate;
    let counted: u64 = if index as u64 <= u32::MAX as u64 {
        index as u64
    } else {
        u32::MAX as u64
    };
    proof {
        vstd::arithmetic::div_mod::lemma_div_is_ordered_by_denominator(
            NANOS_PER_SECOND as int,
            1,
            rate as int,
        );
        assert(NANOS_PER_SECOND as int / 1 == NANOS_PER_SECOND);
        vstd::arithmetic::mul::lemma_mul_inequality(
            period as int,
            NANOS_PER_SECOND as int,
            counted as int,
        );
        assert(0 <= period * counted) by (nonlinear_arith)
            requires
                period >= 0,
                counted >= 0,
        ;
    }
    period * counted
}

/// What an answer is charged: from when its probe was due, not from when it
/// left. Nothing where it arrived early.
#[must_use]
pub fn lateness(arrived: u64, due: u64) -> (nanos: u64)
    ensures
        nanos == (if arrived > due {
            (arrived - due) as u64
        } else {
            0
        }),
{
    if arrived > due {
        arrived - due
    } else {
        0
    }
}

/// The schedule never runs backwards.
pub proof fn lemma_schedule_is_monotonic(rate: nat, a: nat, b: nat)
    requires
        rate > 0,
        a <= b,
    ensures
        due(rate, a) <= due(rate, b),
{
    let period = NANOS_PER_SECOND as nat / rate;
    let x: nat = if a <= u32::MAX {
        a
    } else {
        u32::MAX as nat
    };
    let y: nat = if b <= u32::MAX {
        b
    } else {
        u32::MAX as nat
    };
    assert(period * x <= period * y) by (nonlinear_arith)
        requires
            x <= y,
            period >= 0,
    ;
}

} // verus!
