//! Rings: the slots that indices share, and the powers of two that rings are
//! made of.

use vstd::arithmetic::power2;
use vstd::prelude::*;

use crate::powers;
use crate::spsc;
use crate::spsc::{ConsumerIndex, ProducerIndex};

verus! {

/// The slots are taken in turn, from the first to the last and then again.
#[verifier::rlimit(30)]
pub proof fn lemma_slots_in_turn(index: int, capacity: int)
    requires
        capacity > 0,
        index >= 0,
    ensures
        spsc::slot_spec(0, capacity) == 0,
        0 <= spsc::slot_spec(index, capacity) < capacity,
        spsc::slot_spec(index + 1, capacity) == (if spsc::slot_spec(index, capacity) + 1
            == capacity {
            0
        } else {
            spsc::slot_spec(index, capacity) + 1
        }),
{
    vstd::arithmetic::div_mod::lemma_mod_bound(index, capacity);
    vstd::arithmetic::div_mod::lemma_fundamental_div_mod(index, capacity);
    let q = index / capacity;
    let r = index % capacity;
    if r + 1 == capacity {
        assert(index + 1 == capacity * (q + 1)) by (nonlinear_arith)
            requires
                index == capacity * q + r,
                r + 1 == capacity,
        ;
        vstd::arithmetic::div_mod::lemma_mod_multiples_basic(q + 1, capacity);
        assert((q + 1) * capacity == capacity * (q + 1)) by (nonlinear_arith);
    } else {
        assert(q * capacity == capacity * q) by (nonlinear_arith);
        vstd::arithmetic::div_mod::lemma_fundamental_div_mod_converse(
            index + 1,
            capacity,
            q,
            r + 1,
        );
    }
    vstd::arithmetic::div_mod::lemma_small_mod(0, capacity as nat);
}

/// Rounding up gives a power of two that is no less than asked for, and less than
/// twice that.
pub proof fn lemma_rounded_up(n: usize, found: (usize, u32))
    requires
        n > 0,
        call_ensures(powers::next_power_of_two, (n,), found),
    ensures
        found.0 == power2::pow2(found.1 as nat),
        n <= found.0 < 2 * n,
        powers::power_above(n as nat) == found.0,
{
    powers::lemma_ceil_log2(n as nat);
    power2::lemma2_to64();
    if n >= 2 {
        power2::lemma_pow2_unfold(powers::ceil_log2(n as nat));
    } else {
        assert(powers::ceil_log2(1) == 0);
    }
}

/// Each side writes and reads at the slot of its own index.
pub proof fn lemma_slots_of_the_sides(
    producer: ProducerIndex,
    consumer: ConsumerIndex,
    written: usize,
    read: usize,
)
    requires
        producer.wf(),
        consumer.wf(),
        call_ensures(ProducerIndex::slot, (&producer,), written),
        call_ensures(ConsumerIndex::slot, (&consumer,), read),
    ensures
        written == producer.head() % producer.capacity(),
        read == consumer.tail() % consumer.capacity(),
{
}

} // verus!
