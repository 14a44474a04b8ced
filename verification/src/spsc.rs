//! A single-producer single-consumer ring: one direction, no waiting.
//!
//! # The protocol
//!
//! Indices increase forever and are reduced only at slot access, so full and
//! empty are never ambiguous: `head - tail == capacity` is full, `head == tail`
//! is empty.
//!
//! - The producer owns `head`, the consumer owns `tail`.
//! - A slot is handed over by publishing the index after touching the slot.
//! - Each side keeps a stale copy of the other's index and refreshes it only
//!   when the ring looks full or empty. Staleness is always conservative: the
//!   real index can only have moved forward.
//!
//! [`ProducerIndex`] and [`ConsumerIndex`] are the two sides' bookkeeping, for
//! whatever memory the slots live in. [`Ring`] puts them over a vector, for one
//! thread.

use vstd::prelude::*;

use crate::powers;

verus! {

/// The slot of an index, in a ring of `capacity` slots.
pub open spec fn slot_spec(index: int, capacity: int) -> int {
    index % capacity
}

/// The producer's side: its own index, and a stale copy of the consumer's.
#[derive(Debug)]
pub struct ProducerIndex {
    head: usize,
    /// Refreshed only when the ring looks full.
    cached_tail: usize,
    /// A power of two.
    capacity: usize,
}

/// The consumer's side: its own index, and a stale copy of the producer's.
#[derive(Debug)]
pub struct ConsumerIndex {
    tail: usize,
    /// Refreshed only when the ring looks empty.
    cached_head: usize,
    /// A power of two.
    capacity: usize,
}

impl ProducerIndex {
    /// Items ever pushed.
    pub closed spec fn head(&self) -> int {
        self.head as int
    }

    /// The consumer's index as last seen.
    pub closed spec fn seen(&self) -> int {
        self.cached_tail as int
    }

    pub closed spec fn capacity(&self) -> int {
        self.capacity as int
    }

    /// What is seen of the ring is no more than it holds.
    pub open spec fn wf(&self) -> bool {
        &&& self.capacity() > 0
        &&& 0 <= self.seen() <= self.head() <= self.seen() + self.capacity()
        &&& self.head() <= usize::MAX
        &&& self.capacity() <= usize::MAX
    }

    /// An index over a ring of at least `capacity` slots, rounded up to a power
    /// of two.
    #[must_use]
    pub fn new(capacity: usize) -> (index: Self)
        requires
            capacity > 0,
            powers::power_above(capacity as nat) <= usize::MAX,
        ensures
            index.wf(),
            index.head() == 0,
            index.seen() == 0,
            index.capacity() == powers::power_above(capacity as nat),
    {
        proof {
            powers::lemma_ceil_log2(capacity as nat);
        }
        let (capacity, _) = powers::next_power_of_two(capacity);
        ProducerIndex { head: 0, cached_tail: 0, capacity }
    }

    /// Whether the ring looks full. The truth can only be equal or better.
    #[must_use]
    pub fn looks_full(&self) -> (full: bool)
        requires
            self.wf(),
        ensures
            full == (self.head() - self.seen() == self.capacity()),
    {
        self.head - self.cached_tail == self.capacity
    }

    /// Takes in the consumer's index.
    pub fn refresh(&mut self, tail: usize)
        requires
            old(self).wf(),
            old(self).seen() <= tail <= old(self).head(),
        ensures
            final(self).wf(),
            final(self).seen() == tail,
            final(self).head() == old(self).head(),
            final(self).capacity() == old(self).capacity(),
    {
        self.cached_tail = tail;
    }

    /// The slot to write, where the ring does not look full.
    #[must_use]
    pub fn slot(&self) -> (slot: usize)
        requires
            self.wf(),
        ensures
            slot == slot_spec(self.head(), self.capacity()),
            slot < self.capacity(),
    {
        self.head % self.capacity
    }

    /// Counts the written slot, and gives the index to publish.
    pub fn advance(&mut self) -> (head: usize)
        requires
            old(self).wf(),
            old(self).head() - old(self).seen() < old(self).capacity(),
            old(self).head() < usize::MAX,
        ensures
            final(self).wf(),
            final(self).head() == old(self).head() + 1,
            final(self).seen() == old(self).seen(),
            final(self).capacity() == old(self).capacity(),
            head == final(self).head(),
    {
        self.head = self.head + 1;
        self.head
    }

    /// Items in the ring, given the consumer's index.
    #[must_use]
    pub fn len(&self, tail: usize) -> (len: usize)
        requires
            self.wf(),
            tail <= self.head(),
        ensures
            len == self.head() - tail,
    {
        self.head - tail
    }

    /// Slots in the ring.
    #[must_use]
    pub fn slots(&self) -> (slots: usize)
        ensures
            slots == self.capacity(),
    {
        self.capacity
    }
}

impl ConsumerIndex {
    /// Items ever popped.
    pub closed spec fn tail(&self) -> int {
        self.tail as int
    }

    /// The producer's index as last seen.
    pub closed spec fn seen(&self) -> int {
        self.cached_head as int
    }

    pub closed spec fn capacity(&self) -> int {
        self.capacity as int
    }

    pub open spec fn wf(&self) -> bool {
        &&& self.capacity() > 0
        &&& 0 <= self.tail() <= self.seen() <= self.tail() + self.capacity()
        &&& self.seen() <= usize::MAX
        &&& self.capacity() <= usize::MAX
    }

    /// An index over a ring of at least `capacity` slots, rounded up to a power
    /// of two.
    #[must_use]
    pub fn new(capacity: usize) -> (index: Self)
        requires
            capacity > 0,
            powers::power_above(capacity as nat) <= usize::MAX,
        ensures
            index.wf(),
            index.tail() == 0,
            index.seen() == 0,
            index.capacity() == powers::power_above(capacity as nat),
    {
        proof {
            powers::lemma_ceil_log2(capacity as nat);
        }
        let (capacity, _) = powers::next_power_of_two(capacity);
        ConsumerIndex { tail: 0, cached_head: 0, capacity }
    }

    /// Whether the ring looks empty. The truth can only be equal or better.
    #[must_use]
    pub fn looks_empty(&self) -> (empty: bool)
        requires
            self.wf(),
        ensures
            empty == (self.seen() == self.tail()),
    {
        self.cached_head == self.tail
    }

    /// Takes in the producer's index.
    pub fn refresh(&mut self, head: usize)
        requires
            old(self).wf(),
            old(self).seen() <= head <= old(self).tail() + old(self).capacity(),
        ensures
            final(self).wf(),
            final(self).seen() == head,
            final(self).tail() == old(self).tail(),
            final(self).capacity() == old(self).capacity(),
    {
        self.cached_head = head;
    }

    /// The slot to read, where the ring does not look empty.
    #[must_use]
    pub fn slot(&self) -> (slot: usize)
        requires
            self.wf(),
        ensures
            slot == slot_spec(self.tail(), self.capacity()),
            slot < self.capacity(),
    {
        self.tail % self.capacity
    }

    /// Counts the vacated slot, and gives the index to publish.
    pub fn advance(&mut self) -> (tail: usize)
        requires
            old(self).wf(),
            old(self).tail() < old(self).seen(),
        ensures
            final(self).wf(),
            final(self).tail() == old(self).tail() + 1,
            final(self).seen() == old(self).seen(),
            final(self).capacity() == old(self).capacity(),
            tail == final(self).tail(),
    {
        self.tail = self.tail + 1;
        self.tail
    }

    /// Items in the ring, given the producer's index.
    #[must_use]
    pub fn len(&self, head: usize) -> (len: usize)
        requires
            self.wf(),
            self.tail() <= head,
        ensures
            len == head - self.tail(),
    {
        head - self.tail
    }
}

// -------------------------------------------------------------------- the protocol

/// Both sides of one ring: each sees of the other an index that the other has
/// had, and neither is ahead of what it may be.
pub open spec fn coherent(producer: ProducerIndex, consumer: ConsumerIndex) -> bool {
    &&& producer.wf()
    &&& consumer.wf()
    &&& producer.capacity() == consumer.capacity()
    &&& producer.seen() <= consumer.tail()
    &&& consumer.seen() <= producer.head()
    &&& consumer.tail() <= producer.head() <= consumer.tail() + producer.capacity()
}

/// Fresh sides of one ring are coherent.
pub proof fn lemma_fresh_coherent(producer: ProducerIndex, consumer: ConsumerIndex)
    requires
        producer.wf(),
        consumer.wf(),
        producer.capacity() == consumer.capacity(),
        producer.head() == 0,
        producer.seen() == 0,
        consumer.tail() == 0,
        consumer.seen() == 0,
    ensures
        coherent(producer, consumer),
{
}

/// A push that sees room keeps the sides coherent.
pub proof fn lemma_push_coherent(
    producer: ProducerIndex,
    consumer: ConsumerIndex,
    pushed: ProducerIndex,
)
    requires
        coherent(producer, consumer),
        producer.head() - producer.seen() < producer.capacity(),
        pushed.wf(),
        pushed.capacity() == producer.capacity(),
        pushed.head() == producer.head() + 1,
        pushed.seen() == producer.seen(),
    ensures
        coherent(pushed, consumer),
{
}

/// A pop that sees an item keeps the sides coherent.
pub proof fn lemma_pop_coherent(
    producer: ProducerIndex,
    consumer: ConsumerIndex,
    popped: ConsumerIndex,
)
    requires
        coherent(producer, consumer),
        consumer.tail() < consumer.seen(),
        popped.wf(),
        popped.capacity() == consumer.capacity(),
        popped.tail() == consumer.tail() + 1,
        popped.seen() == consumer.seen(),
    ensures
        coherent(producer, popped),
{
}

/// The producer may take in any index that the consumer has published since it
/// last looked, however stale: it can be taken in, and the sides stay coherent.
pub proof fn lemma_producer_refresh_coherent(
    producer: ProducerIndex,
    consumer: ConsumerIndex,
    tail: int,
    informed: ProducerIndex,
)
    requires
        coherent(producer, consumer),
        producer.seen() <= tail <= consumer.tail(),
        informed.capacity() == producer.capacity(),
        informed.head() == producer.head(),
        informed.seen() == tail,
    ensures
        tail <= producer.head(),
        coherent(informed, consumer),
{
}

/// The same for the consumer.
pub proof fn lemma_consumer_refresh_coherent(
    producer: ProducerIndex,
    consumer: ConsumerIndex,
    head: int,
    informed: ConsumerIndex,
)
    requires
        coherent(producer, consumer),
        consumer.seen() <= head <= producer.head(),
        informed.capacity() == consumer.capacity(),
        informed.tail() == consumer.tail(),
        informed.seen() == head,
    ensures
        head <= consumer.tail() + consumer.capacity(),
        coherent(producer, informed),
{
}

/// No slot is reachable by both sides at once: where the producer sees room and
/// the consumer sees an item, the slots they would touch differ.
pub proof fn lemma_slots_disjoint(producer: ProducerIndex, consumer: ConsumerIndex)
    requires
        coherent(producer, consumer),
        producer.head() - producer.seen() < producer.capacity(),
        consumer.tail() < consumer.seen(),
    ensures
        slot_spec(producer.head(), producer.capacity()) != slot_spec(
            consumer.tail(),
            consumer.capacity(),
        ),
{
    lemma_slots_differ(consumer.tail(), producer.head(), producer.capacity());
}

/// Indices less than a ring apart have different slots.
proof fn lemma_slots_differ(low: int, high: int, capacity: int)
    requires
        0 <= low < high < low + capacity,
    ensures
        slot_spec(low, capacity) != slot_spec(high, capacity),
{
    vstd::arithmetic::div_mod::lemma_fundamental_div_mod(low, capacity);
    vstd::arithmetic::div_mod::lemma_fundamental_div_mod(high, capacity);
    if low % capacity == high % capacity {
        let a = low / capacity;
        let b = high / capacity;
        assert(high - low == capacity * (b - a)) by (nonlinear_arith)
            requires
                low == capacity * a + low % capacity,
                high == capacity * b + high % capacity,
                low % capacity == high % capacity,
        ;
        assert(!(0 < capacity * (b - a) < capacity)) by (nonlinear_arith)
            requires
                capacity > 0,
        ;
    }
}

// ------------------------------------------------------------------- both at once

/// A ring that two threads share: the two sides, the slots, and what each side
/// is in the middle of.
pub struct Exchange<T> {
    pub producer: ProducerIndex,
    pub consumer: ConsumerIndex,
    pub slots: Map<int, T>,
    /// Written into the slot of `head`, and not yet published.
    pub written: Option<T>,
    /// Whether the slot of `tail` was read, and is not yet handed back.
    pub read: bool,
    /// Items that were published, in order.
    pub accepted: Seq<T>,
    /// Items that were read, in order.
    pub delivered: Seq<T>,
}

/// What one side does at a time. The sides' moves may alternate in any way.
pub enum Move<T> {
    /// The producer loads the consumer's index and takes it in.
    SeeTail { tail: usize, producer: ProducerIndex },
    /// The producer writes the slot of its index.
    Write { value: T },
    /// The producer publishes its index.
    PublishHead { producer: ProducerIndex },
    /// The consumer loads the producer's index and takes it in.
    SeeHead { head: usize, consumer: ConsumerIndex },
    /// The consumer reads the slot of its index.
    Read,
    /// The consumer publishes its index.
    PublishTail { consumer: ConsumerIndex },
}

impl<T> Exchange<T> {
    /// A ring that nothing was done to.
    pub open spec fn fresh(self) -> bool {
        &&& self.producer.wf()
        &&& self.consumer.wf()
        &&& self.producer.capacity() == self.consumer.capacity()
        &&& self.producer.head() == 0
        &&& self.consumer.tail() == 0
        &&& self.producer.seen() == 0
        &&& self.consumer.seen() == 0
        &&& self.written is None
        &&& !self.read
        &&& self.accepted.len() == 0
        &&& self.delivered.len() == 0
    }

    /// Whether a side may make a move: by what it sees itself, and with the
    /// index that [`ProducerIndex`] or [`ConsumerIndex`] has afterwards. A load
    /// gives an index that the other side has published, perhaps a while ago,
    /// and never one older than the last.
    pub open spec fn may(self, step: Move<T>) -> bool {
        match step {
            Move::SeeTail { tail, producer } => {
                &&& self.producer.seen() <= tail <= self.consumer.tail()
                &&& producer.seen() == tail
                &&& producer.head() == self.producer.head()
                &&& producer.capacity() == self.producer.capacity()
            },
            Move::Write { .. } => {
                &&& self.written is None
                &&& self.producer.head() - self.producer.seen() < self.producer.capacity()
            },
            Move::PublishHead { producer } => {
                &&& self.written is Some
                &&& self.producer.head() < usize::MAX
                &&& producer.head() == self.producer.head() + 1
                &&& producer.seen() == self.producer.seen()
                &&& producer.capacity() == self.producer.capacity()
            },
            Move::SeeHead { head, consumer } => {
                &&& self.consumer.seen() <= head <= self.producer.head()
                &&& consumer.seen() == head
                &&& consumer.tail() == self.consumer.tail()
                &&& consumer.capacity() == self.consumer.capacity()
            },
            Move::Read => !self.read && self.consumer.tail() < self.consumer.seen(),
            Move::PublishTail { consumer } => {
                &&& self.read
                &&& consumer.tail() == self.consumer.tail() + 1
                &&& consumer.seen() == self.consumer.seen()
                &&& consumer.capacity() == self.consumer.capacity()
            },
        }
    }

    /// The ring after a move.
    pub open spec fn moved(self, step: Move<T>) -> Exchange<T> {
        let capacity = self.producer.capacity();
        match step {
            Move::SeeTail { producer, .. } => Exchange { producer, ..self },
            Move::Write { value } => Exchange {
                slots: self.slots.insert(slot_spec(self.producer.head(), capacity), value),
                written: Some(value),
                ..self
            },
            Move::PublishHead { producer } => Exchange {
                producer,
                written: None,
                accepted: self.accepted.push(self.written->0),
                ..self
            },
            Move::SeeHead { consumer, .. } => Exchange { consumer, ..self },
            Move::Read => Exchange {
                read: true,
                delivered: self.delivered.push(
                    self.slots[slot_spec(self.consumer.tail(), capacity)],
                ),
                ..self
            },
            Move::PublishTail { consumer } => Exchange { consumer, read: false, ..self },
        }
    }

    pub open spec fn moved_all(self, steps: Seq<Move<T>>) -> Exchange<T>
        decreases steps.len(),
    {
        if steps.len() == 0 {
            self
        } else {
            self.moved_all(steps.drop_last()).moved(steps.last())
        }
    }

    /// Every move may be made when its turn comes.
    pub open spec fn may_all(self, steps: Seq<Move<T>>) -> bool
        decreases steps.len(),
    {
        steps.len() == 0 || {
            &&& self.may_all(steps.drop_last())
            &&& self.moved_all(steps.drop_last()).may(steps.last())
        }
    }

    spec fn sound(self) -> bool {
        let capacity = self.producer.capacity();
        &&& coherent(self.producer, self.consumer)
        &&& self.accepted.len() == self.producer.head()
        &&& self.delivered.len() == self.consumer.tail() + if self.read {
            1int
        } else {
            0int
        }
        &&& self.read ==> self.consumer.tail() < self.consumer.seen()
        &&& self.written matches Some(value) ==> {
            &&& self.producer.head() - self.producer.seen() < capacity
            &&& self.slots[slot_spec(self.producer.head(), capacity)] == value
        }
        &&& forall|i: int|
            #![trigger self.accepted[i]]
            self.consumer.tail() <= i < self.producer.head() ==> self.slots[slot_spec(
                i,
                capacity,
            )] == self.accepted[i]
        &&& self.delivered.is_prefix_of(self.accepted)
    }

    proof fn lemma_moved_sound(self, step: Move<T>)
        requires
            self.sound(),
            self.may(step),
        ensures
            self.moved(step).sound(),
    {
        let after = self.moved(step);
        let capacity = self.producer.capacity();
        let head = self.producer.head();
        let tail = self.consumer.tail();
        if let Move::Write { value } = step {
            assert forall|i: int|
                #![trigger after.accepted[i]]
                tail <= i < head implies after.slots[slot_spec(i, capacity)]
                == after.accepted[i] by {
                lemma_slots_differ(i, head, capacity);
                assert(self.slots[slot_spec(i, capacity)] == self.accepted[i]);
            }
        }
        if step is Read {
            assert(self.slots[slot_spec(tail, capacity)] == self.accepted[tail]);
            assert(after.delivered.is_prefix_of(after.accepted)) by {
                assert(after.delivered =~= after.accepted.take(tail + 1));
            }
        }
        if step is PublishHead {
            assert forall|i: int|
                #![trigger after.accepted[i]]
                tail <= i < head + 1 implies after.slots[slot_spec(i, capacity)]
                == after.accepted[i] by {
                if i < head {
                    assert(self.slots[slot_spec(i, capacity)] == self.accepted[i]);
                }
            }
            assert(after.delivered.is_prefix_of(after.accepted)) by {
                assert(after.delivered =~= after.accepted.take(after.delivered.len() as int));
            }
        }
    }

    proof fn lemma_moved_all_sound(self, steps: Seq<Move<T>>)
        requires
            self.fresh(),
            self.may_all(steps),
        ensures
            self.moved_all(steps).sound(),
        decreases steps.len(),
    {
        if steps.len() > 0 {
            self.lemma_moved_all_sound(steps.drop_last());
            self.moved_all(steps.drop_last()).lemma_moved_sound(steps.last());
        }
    }
}

/// Values cross in order, each once, however the two sides' moves alternate and
/// however stale what they see of each other is: what was read is the beginning
/// of what was published, no more than fits is on its way, and the sides stay
/// coherent. A slot is never written by one side while the other reads it.
/// Nothing is left behind either: the indices count what was published and what
/// was read, and to a consumer that has seen the producer's index the ring looks
/// empty exactly when everything published was read and handed back.
pub proof fn lemma_values_cross_threads_in_order<T>(ring: Exchange<T>, steps: Seq<Move<T>>)
    requires
        ring.fresh(),
        ring.may_all(steps),
    ensures
        ({
            let after = ring.moved_all(steps);
            &&& coherent(after.producer, after.consumer)
            &&& after.delivered.is_prefix_of(after.accepted)
            &&& after.accepted.len() - after.delivered.len() <= after.producer.capacity()
            &&& after.accepted.len() == after.producer.head()
            &&& after.delivered.len() == after.consumer.tail() + (if after.read {
                1int
            } else {
                0int
            })
            &&& after.consumer.seen() == after.producer.head() ==> (after.consumer.tail()
                == after.consumer.seen() <==> after.delivered == after.accepted && !after.read)
            &&& after.delivered == after.accepted && !after.read ==> after.consumer.tail()
                == after.consumer.seen()
            &&& after.written is Some && after.read ==> slot_spec(
                after.producer.head(),
                after.producer.capacity(),
            ) != slot_spec(after.consumer.tail(), after.consumer.capacity())
        }),
{
    ring.lemma_moved_all_sound(steps);
    let after = ring.moved_all(steps);
    if after.delivered.len() == after.accepted.len() {
        assert(after.delivered =~= after.accepted);
    }
    if after.written is Some && after.read {
        lemma_slots_disjoint(after.producer, after.consumer);
    }
}

/// However the sides' moves alternate, a side that may make a move may make the
/// calls of its index that go with it.
pub proof fn lemma_moves_meet_the_indices<T>(
    ring: Exchange<T>,
    steps: Seq<Move<T>>,
    step: Move<T>,
)
    requires
        ring.fresh(),
        ring.may_all(steps),
        ring.moved_all(steps).may(step),
    ensures
        ({
            let producer = ring.moved_all(steps).producer;
            let consumer = ring.moved_all(steps).consumer;
            match step {
                Move::SeeTail { tail, .. } => {
                    producer.wf() && producer.seen() <= tail <= producer.head()
                },
                Move::Write { .. } => producer.wf(),
                Move::PublishHead { .. } => {
                    &&& producer.wf()
                    &&& producer.head() - producer.seen() < producer.capacity()
                    &&& producer.head() < usize::MAX
                },
                Move::SeeHead { head, .. } => {
                    consumer.wf() && consumer.seen() <= head <= consumer.tail()
                        + consumer.capacity()
                },
                Move::Read => consumer.wf(),
                Move::PublishTail { .. } => consumer.wf() && consumer.tail() < consumer.seen(),
            }
        }),
{
    ring.lemma_moved_all_sound(steps);
}

// -------------------------------------------------------------------------- the ring

/// A ring over a vector.
#[derive(Debug)]
pub struct Ring<T> {
    buffer: Vec<Option<T>>,
    producer: ProducerIndex,
    consumer: ConsumerIndex,
}

impl<T> View for Ring<T> {
    type V = Seq<T>;

    /// The items in the ring, oldest first.
    closed spec fn view(&self) -> Seq<T> {
        Seq::new(
            (self.producer.head() - self.consumer.tail()) as nat,
            |i: int|
                self.buffer@[slot_spec(
                    self.consumer.tail() + i,
                    self.producer.capacity(),
                )]->0,
        )
    }
}

impl<T> Ring<T> {
    pub closed spec fn wf(&self) -> bool {
        &&& coherent(self.producer, self.consumer)
        &&& self.buffer@.len() == self.producer.capacity()
        &&& forall|i: int|
            #![trigger slot_spec(i, self.producer.capacity())]
            self.consumer.tail() <= i < self.producer.head() ==> self.buffer@[slot_spec(
                i,
                self.producer.capacity(),
            )] is Some
    }

    pub closed spec fn capacity(&self) -> int {
        self.producer.capacity()
    }

    /// Items ever pushed.
    pub closed spec fn pushed(&self) -> int {
        self.producer.head()
    }

    /// Creates a ring holding at most `capacity` items, rounded up to a power
    /// of two.
    #[must_use]
    pub fn with_capacity(capacity: usize) -> (ring: Self)
        requires
            capacity > 0,
            powers::power_above(capacity as nat) <= usize::MAX,
        ensures
            ring.wf(),
            ring@ == Seq::<T>::empty(),
            ring.capacity() == powers::power_above(capacity as nat),
            ring.pushed() == 0,
    {
        let producer = ProducerIndex::new(capacity);
        let consumer = ConsumerIndex::new(capacity);
        let slots = producer.slots();
        let mut buffer: Vec<Option<T>> = Vec::new();
        let mut i: usize = 0;
        while i < slots
            invariant
                i <= slots,
                buffer@.len() == i,
            decreases slots - i,
        {
            buffer.push(None);
            i = i + 1;
        }
        let ring = Ring { buffer, producer, consumer };
        assert(ring@ =~= Seq::empty());
        ring
    }

    /// Hands `value` over, or returns it if the ring is full.
    ///
    /// # Errors
    /// Returns `Err(value)` when the ring is full, so the caller decides what
    /// full means: drop, spin, or count it.
    pub fn try_push(&mut self, value: T) -> (result: Result<(), T>)
        requires
            old(self).wf(),
            old(self).pushed() < usize::MAX,
        ensures
            final(self).wf(),
            final(self).capacity() == old(self).capacity(),
            match result {
                Ok(()) => {
                    &&& old(self)@.len() < old(self).capacity()
                    &&& final(self)@ == old(self)@.push(value)
                    &&& final(self).pushed() == old(self).pushed() + 1
                },
                Err(back) => {
                    &&& old(self)@.len() == old(self).capacity()
                    &&& back == value
                    &&& final(self)@ == old(self)@
                    &&& final(self).pushed() == old(self).pushed()
                },
            },
    {
        if self.producer.looks_full() {
            // Looks full. The truth can only be equal or better, because tail
            // only moves forward.
            self.producer.refresh(self.consumer.tail);
            if self.producer.looks_full() {
                assert(self@ =~= old(self)@);
                return Err(value);
            }
        }
        let ghost capacity = self.producer.capacity();
        let ghost head = self.producer.head();
        let ghost tail = self.consumer.tail();
        let slot = self.producer.slot();
        self.buffer[slot] = Some(value);
        self.producer.advance();
        proof {
            assert forall|i: int|
                #![trigger slot_spec(i, capacity)]
                tail <= i < head implies slot_spec(i, capacity) != slot by {
                lemma_slots_differ(i, head, capacity);
            }
            assert forall|i: int|
                #![trigger slot_spec(i, capacity)]
                tail <= i < head + 1 implies self.buffer@[slot_spec(i, capacity)] is Some by {
                if i < head {
                    vstd::arithmetic::div_mod::lemma_mod_bound(i, capacity);
                }
            }
            assert forall|k: int| 0 <= k < head - tail implies #[trigger] self@[k]
                == old(self)@[k] by {
                let i = tail + k;
                assert(slot_spec(i, capacity) != slot);
                vstd::arithmetic::div_mod::lemma_mod_bound(i, capacity);
            }
            assert(self@[head - tail] == value);
            assert(self@ =~= old(self)@.push(value));
        }
        Ok(())
    }

    /// Takes the oldest item, or `None` if the ring is empty.
    pub fn try_pop(&mut self) -> (item: Option<T>)
        requires
            old(self).wf(),
        ensures
            final(self).wf(),
            final(self).capacity() == old(self).capacity(),
            final(self).pushed() == old(self).pushed(),
            match item {
                Some(item) => {
                    &&& old(self)@.len() > 0
                    &&& item == old(self)@[0]
                    &&& final(self)@ == old(self)@.skip(1)
                },
                None => old(self)@.len() == 0 && final(self)@ == old(self)@,
            },
    {
        if self.consumer.looks_empty() {
            self.consumer.refresh(self.producer.head);
            if self.consumer.looks_empty() {
                assert(self@ =~= old(self)@);
                return None;
            }
        }
        let ghost capacity = self.producer.capacity();
        let ghost head = self.producer.head();
        let ghost tail = self.consumer.tail();
        let slot = self.consumer.slot();
        assert(old(self).buffer@[slot_spec(tail, capacity)] is Some);
        let item = self.buffer[slot].take();
        self.consumer.advance();
        proof {
            assert forall|i: int|
                #![trigger slot_spec(i, capacity)]
                tail + 1 <= i < head implies self.buffer@[slot_spec(i, capacity)] == old(
                self,
            ).buffer@[slot_spec(i, capacity)] by {
                lemma_slots_differ(tail, i, capacity);
                vstd::arithmetic::div_mod::lemma_mod_bound(i, capacity);
            }
            assert forall|k: int| 0 <= k < head - tail - 1 implies #[trigger] self@[k]
                == old(self)@.skip(1)[k] by {
                let i = tail + 1 + k;
                assert(self.buffer@[slot_spec(i, capacity)] == old(self).buffer@[slot_spec(
                    i,
                    capacity,
                )]);
            }
            assert(item is Some);
            assert(old(self)@[0] == item->0);
            assert(self@ =~= old(self)@.skip(1));
        }
        item
    }

    /// Items currently in the ring.
    #[must_use]
    pub fn len(&self) -> (len: usize)
        requires
            self.wf(),
        ensures
            len == self@.len(),
            len <= self.capacity(),
    {
        self.producer.len(self.consumer.tail)
    }

    #[must_use]
    pub fn is_empty(&self) -> (empty: bool)
        requires
            self.wf(),
        ensures
            empty == (self@.len() == 0),
    {
        self.len() == 0
    }
}

/// Something done to a ring.
pub enum Step<T> {
    Push(T),
    Pop,
}

/// What has gone through a ring.
#[verifier::ext_equal]
pub struct Traffic<T> {
    /// Items in the ring, oldest first.
    pub inside: Seq<T>,
    /// Items that were accepted, in order.
    pub accepted: Seq<T>,
    /// Items that came out, in order.
    pub delivered: Seq<T>,
}

/// The traffic of a ring after some steps, starting from an empty one.
pub open spec fn traffic<T>(capacity: int, steps: Seq<Step<T>>) -> Traffic<T>
    decreases steps.len(),
{
    if steps.len() == 0 {
        Traffic { inside: Seq::empty(), accepted: Seq::empty(), delivered: Seq::empty() }
    } else {
        let before = traffic(capacity, steps.drop_last());
        match steps.last() {
            Step::Push(value) => if before.inside.len() < capacity {
                Traffic {
                    inside: before.inside.push(value),
                    accepted: before.accepted.push(value),
                    ..before
                }
            } else {
                before
            },
            Step::Pop => if before.inside.len() > 0 {
                Traffic {
                    inside: before.inside.skip(1),
                    delivered: before.delivered.push(before.inside[0]),
                    ..before
                }
            } else {
                before
            },
        }
    }
}

/// Values cross in order, each once: what came out and what is still inside is
/// what was accepted, and there is never more inside than fits.
pub proof fn lemma_values_cross_in_order<T>(capacity: int, steps: Seq<Step<T>>)
    requires
        capacity >= 0,
    ensures
        ({
            let after = traffic(capacity, steps);
            &&& after.delivered + after.inside == after.accepted
            &&& after.inside.len() <= capacity
        }),
    decreases steps.len(),
{
    let after = traffic(capacity, steps);
    if steps.len() > 0 {
        lemma_values_cross_in_order(capacity, steps.drop_last());
    }
    assert(after.delivered + after.inside =~= after.accepted);
}

} // verus!
