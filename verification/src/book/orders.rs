//! Order ID to order: open addressing, linear probing, power-of-two capacity,
//! backward-shift deletion.

use vstd::prelude::*;

use crate::feed::Side;
use crate::powers;

verus! {

/// An order as the book holds it.
#[derive(Clone, Copy, Debug, Eq, PartialEq, Structural)]
pub struct Order {
    pub symbol: u16,
    pub side: Side,
    pub price: i64,
    pub qty: i64,
}

pub open spec fn default_order() -> Order {
    Order { symbol: 0, side: Side::Bid, price: 0, qty: 0 }
}

impl Default for Order {
    fn default() -> (order: Self)
        ensures
            order == default_order(),
    {
        Order { symbol: 0, side: Side::Bid, price: 0, qty: 0 }
    }
}

/// One table slot: the key beside the order it addresses. Key zero marks an
/// empty slot.
#[derive(Clone, Copy, Debug)]
struct Slot {
    key: u64,
    order: Order,
}

/// Order ID to [`Order`].
///
/// ID zero is reserved as the empty marker: order references start at 1, and
/// the reservation buys a table with no separate occupancy metadata.
#[derive(Debug)]
pub struct OrderMap {
    slots: Vec<Slot>,
    mask: usize,
    len: usize,
}

// ------------------------------------------------------------------- the table

/// Steps from slot `from` forward to slot `to` on a ring of `cap` slots.
spec fn dist(cap: int, from: int, to: int) -> int {
    if to >= from {
        to - from
    } else {
        to - from + cap
    }
}

/// The slot where the search for `key` starts.
spec fn home(mask: usize, key: u64) -> int {
    ((key.wrapping_mul(0x9e37_79b9_7f4a_7c15) >> 32) as usize & mask) as int
}

spec fn holds(slots: Seq<Slot>, key: u64) -> bool {
    key != 0 && exists|i: int| 0 <= i < slots.len() && (#[trigger] slots[i]).key == key
}

spec fn place_of(slots: Seq<Slot>, key: u64) -> int {
    choose|i: int| 0 <= i < slots.len() && (#[trigger] slots[i]).key == key
}

/// What the slots hold.
spec fn contents(slots: Seq<Slot>) -> Map<u64, Order> {
    Map::new(|key: u64| holds(slots, key), |key: u64| slots[place_of(slots, key)].order)
}

/// No key stands twice.
spec fn distinct(slots: Seq<Slot>) -> bool {
    forall|i: int, j: int|
        #![trigger slots[i], slots[j]]
        0 <= i < slots.len() && 0 <= j < slots.len() && slots[i].key != 0 && slots[i].key
            == slots[j].key ==> i == j
}

/// Every slot on the way from a key's home to its place is taken, but possibly
/// `hole`.
spec fn chained(slots: Seq<Slot>, mask: usize, hole: int) -> bool {
    forall|i: int, j: int|
        #![trigger slots[i], slots[j]]
        0 <= i < slots.len() && 0 <= j < slots.len() && slots[i].key != 0 && dist(
            slots.len() as int,
            home(mask, slots[i].key),
            j,
        ) < dist(slots.len() as int, home(mask, slots[i].key), i) ==> slots[j].key != 0 || j == hole
}

/// The slots form a table.
spec fn table(slots: Seq<Slot>, mask: usize) -> bool {
    &&& slots.len() == mask + 1
    &&& distinct(slots)
    &&& chained(slots, mask, -1)
}

proof fn lemma_home(mask: usize, key: u64)
    ensures
        0 <= home(mask, key) <= mask,
{
    let x = (key.wrapping_mul(0x9e37_79b9_7f4a_7c15) >> 32) as usize;
    assert(x & mask <= mask) by (bit_vector);
}

proof fn lemma_contents_at(slots: Seq<Slot>, i: int)
    requires
        distinct(slots),
        0 <= i < slots.len(),
        slots[i].key != 0,
    ensures
        contents(slots).contains_pair(slots[i].key, slots[i].order),
        place_of(slots, slots[i].key) == i,
{
    let key = slots[i].key;
    assert(holds(slots, key));
    let p = place_of(slots, key);
    assert(slots[p].key == slots[i].key);
}

proof fn lemma_contents_has(slots: Seq<Slot>, key: u64)
    requires
        contents(slots).dom().contains(key),
    ensures
        key != 0,
        0 <= place_of(slots, key) < slots.len(),
        slots[place_of(slots, key)].key == key,
        contents(slots)[key] == slots[place_of(slots, key)].order,
{
}

/// A table with fewer orders than slots has an empty slot.
proof fn lemma_has_empty(slots: Seq<Slot>)
    requires
        distinct(slots),
        contents(slots).dom().len() < slots.len(),
    ensures
        exists|e: int| 0 <= e < slots.len() && (#[trigger] slots[e]).key == 0,
{
    if forall|e: int| 0 <= e < slots.len() ==> (#[trigger] slots[e]).key != 0 {
        let keys = slots.map_values(|slot: Slot| slot.key);
        assert forall|i: int, j: int| 0 <= i < j < keys.len() implies keys[i] != keys[j] by {
            assert(slots[i].key != slots[j].key);
        }
        keys.unique_seq_to_set();
        assert forall|key: u64| keys.to_set().contains(key) == contents(slots).dom().contains(
            key,
        ) by {
            if keys.to_set().contains(key) {
                let i = choose|i: int| 0 <= i < keys.len() && keys[i] == key;
                lemma_contents_at(slots, i);
            }
            if contents(slots).dom().contains(key) {
                lemma_contents_has(slots, key);
                assert(keys[place_of(slots, key)] == key);
            }
        }
        assert(keys.to_set() =~= contents(slots).dom());
    }
}

/// Filling an empty slot adds one order.
proof fn lemma_fill(slots: Seq<Slot>, at: int, key: u64, order: Order)
    requires
        distinct(slots),
        0 <= at < slots.len(),
        key != 0,
        slots[at].key == 0 && !contents(slots).dom().contains(key) || slots[at].key == key,
    ensures
        distinct(slots.update(at, Slot { key, order })),
        contents(slots.update(at, Slot { key, order })) == contents(slots).insert(key, order),
{
    let after = slots.update(at, Slot { key, order });
    assert forall|i: int, j: int|
        #![trigger after[i], after[j]]
        0 <= i < after.len() && 0 <= j < after.len() && after[i].key != 0 && after[i].key
            == after[j].key implies i == j by {
        if i != at {
            lemma_contents_at(slots, i);
        }
        if j != at {
            lemma_contents_at(slots, j);
        }
    }
    let want = contents(slots).insert(key, order);
    assert forall|k: u64|
        #![trigger contents(after).dom().contains(k)]
        #![trigger want.dom().contains(k)]
        #![trigger contents(after)[k]]
        #![trigger want[k]]
        {
            &&& contents(after).dom().contains(k) == want.dom().contains(k)
            &&& want.dom().contains(k) ==> contents(after)[k] == want[k]
        } by {
        if contents(after).dom().contains(k) {
            lemma_contents_has(after, k);
            let p = place_of(after, k);
            if p != at {
                lemma_contents_at(slots, p);
            }
        }
        if k == key {
            lemma_contents_at(after, at);
        } else if contents(slots).dom().contains(k) {
            lemma_contents_has(slots, k);
            lemma_contents_at(after, place_of(slots, k));
        }
    }
    assert(contents(after) =~= want);
}

/// Emptying a slot takes its order away.
proof fn lemma_drop(slots: Seq<Slot>, at: int)
    requires
        distinct(slots),
        0 <= at < slots.len(),
        slots[at].key != 0,
    ensures
        distinct(slots.update(at, Slot { key: 0, order: slots[at].order })),
        contents(slots.update(at, Slot { key: 0, order: slots[at].order })) == contents(
            slots,
        ).remove(slots[at].key),
{
    let after = slots.update(at, Slot { key: 0, order: slots[at].order });
    let want = contents(slots).remove(slots[at].key);
    assert forall|k: u64|
        #![trigger contents(after).dom().contains(k)]
        #![trigger want.dom().contains(k)]
        #![trigger contents(after)[k]]
        #![trigger want[k]]
        {
            &&& contents(after).dom().contains(k) == want.dom().contains(k)
            &&& want.dom().contains(k) ==> contents(after)[k] == want[k]
        } by {
        if contents(after).dom().contains(k) {
            lemma_contents_has(after, k);
            let p = place_of(after, k);
            assert(p != at);
            assert(slots[p].key == k);
            lemma_contents_at(slots, p);
            assert(slots[p].key != slots[at].key);
        }
        if want.dom().contains(k) {
            lemma_contents_has(slots, k);
            lemma_contents_at(after, place_of(slots, k));
        }
    }
    assert(contents(after) =~= want);
}

// --------------------------------------------------------------------- the map

/// The next slot on the ring.
fn following(mask: usize, at: usize) -> (next: usize)
    requires
        at <= mask,
        mask < usize::MAX,
    ensures
        next == (if at == mask {
            0
        } else {
            at + 1
        }),
{
    if at == mask {
        0
    } else {
        at + 1
    }
}

/// Steps forward from one slot to another.
fn steps(mask: usize, from: usize, to: usize) -> (steps: usize)
    requires
        from <= mask,
        to <= mask,
        mask < usize::MAX,
    ensures
        steps == dist(mask + 1, from as int, to as int),
{
    if to >= from {
        to - from
    } else {
        mask - from + to + 1
    }
}

impl View for OrderMap {
    type V = Map<u64, Order>;

    closed spec fn view(&self) -> Map<u64, Order> {
        contents(self.slots@)
    }
}

impl OrderMap {
    /// What every operation keeps.
    pub closed spec fn wf(&self) -> bool {
        &&& table(self.slots@, self.mask)
        &&& self@.dom().finite()
        &&& self.len == self@.dom().len()
        &&& self.slots@.len() >= 2
        &&& 4 * self.len <= 3 * self.slots@.len()
    }

    /// Slots in the table.
    pub closed spec fn capacity(&self) -> nat {
        self.slots@.len()
    }

    /// Whether the table would double for one more order.
    pub open spec fn full(&self) -> bool {
        (self@.dom().len() + 1) * 4 > self.capacity() * 3
    }

    /// Whether the sizes that an insertion computes fit the machine.
    pub open spec fn has_room(&self) -> bool {
        self.capacity() * 4 <= usize::MAX
    }

    /// The reserved ID is never held, and the map is finite.
    pub proof fn lemma_valid(&self)
        requires
            self.wf(),
        ensures
            self@.dom().finite(),
            !self@.dom().contains(0),
    {
    }

    #[must_use]
    pub fn with_capacity(capacity: usize) -> (map: Self)
        requires
            powers::power_above(capacity as nat) * 2 <= usize::MAX,
        ensures
            map.wf(),
            map@ == Map::<u64, Order>::empty(),
            map.capacity() == 2 * (if powers::power_above(capacity as nat) > 16 {
                powers::power_above(capacity as nat)
            } else {
                16
            }),
    {
        let (power, _) = powers::next_power_of_two(capacity);
        let size: usize = if power > 16 {
            power * 2
        } else {
            32
        };
        let map = OrderMap {
            slots: vec![Slot { key: 0, order: Order::default() }; size],
            mask: size - 1,
            len: 0,
        };
        assert(map@ =~= Map::empty());
        map
    }

    /// Fibonacci multiplicative mix: one multiply, one shift.
    fn slot(&self, key: u64) -> (at: usize)
        ensures
            at == home(self.mask, key),
            at <= self.mask,
    {
        proof {
            lemma_home(self.mask, key);
        }
        (key.wrapping_mul(0x9e37_79b9_7f4a_7c15) >> 32) as usize & self.mask
    }

    /// Where `key` stands, or else the empty slot that ends its search.
    fn find(&self, key: u64) -> (at: usize)
        requires
            table(self.slots@, self.mask),
            self@.dom().len() < self.slots@.len(),
        ensures
            at < self.slots@.len(),
            self.slots@[at as int].key == 0 || self.slots@[at as int].key == key,
            self.slots@[at as int].key == 0 ==> !self@.dom().contains(key),
            forall|j: int|
                #![trigger self.slots@[j]]
                0 <= j < self.slots@.len() && dist(
                    self.slots@.len() as int,
                    home(self.mask, key),
                    j,
                ) < dist(self.slots@.len() as int, home(self.mask, key), at as int)
                    ==> self.slots@[j].key != 0,
    {
        let ghost cap = self.slots@.len() as int;
        let ghost start = home(self.mask, key);
        proof {
            lemma_has_empty(self.slots@);
            lemma_home(self.mask, key);
            assert(self.slots.len() == self.slots@.len());
        }
        let ghost e = choose|e: int| 0 <= e < cap && (#[trigger] self.slots@[e]).key == 0;
        let mut at: usize = self.slot(key);
        loop
            invariant
                table(self.slots@, self.mask),
                cap == self.slots@.len() == self.slots.len(),
                start == home(self.mask, key),
                0 <= start < cap,
                at < cap,
                0 <= e < cap,
                self.slots@[e].key == 0,
                dist(cap, start, at as int) <= dist(cap, start, e),
                forall|j: int|
                    #![trigger self.slots@[j]]
                    0 <= j < cap && dist(cap, start, j) < dist(cap, start, at as int)
                        ==> self.slots@[j].key != 0 && self.slots@[j].key != key,
            decreases cap - dist(cap, start, at as int),
        {
            let held = self.slots[at].key;
            if held == 0 {
                proof {
                    if self@.dom().contains(key) {
                        lemma_contents_has(self.slots@, key);
                        let i = place_of(self.slots@, key);
                        assert(self.slots@[i].key == key);
                        assert(self.slots@[at as int].key == 0);
                        assert(i != at);
                        assert(dist(cap, start, at as int) < dist(cap, start, i));
                    }
                }
                return at;
            }
            if held == key {
                return at;
            }
            at = following(self.mask, at);
        }
    }

    #[must_use]
    pub fn get(&self, key: u64) -> (found: Option<&Order>)
        requires
            self.wf(),
        ensures
            match found {
                Some(order) => self@.contains_pair(key, *order),
                None => !self@.dom().contains(key),
            },
    {
        let at = self.find(key);
        let slot = &self.slots[at];
        if slot.key == 0 {
            None
        } else {
            proof {
                lemma_contents_at(self.slots@, at as int);
            }
            Some(&slot.order)
        }
    }

    pub fn get_mut(&mut self, key: u64) -> (found: Option<&mut Order>)
        requires
            old(self).wf(),
        ensures
            match found {
                Some(order) => {
                    &&& old(self)@.contains_pair(key, *order)
                    &&& final(self)@ == old(self)@.insert(key, *final(order))
                    &&& final(self).wf()
                    &&& final(self).capacity() == old(self).capacity()
                },
                None => !old(self)@.dom().contains(key) && *final(self) == *old(self),
            },
    {
        let at = self.find(key);
        if self.slots[at].key == 0 {
            None
        } else {
            proof {
                lemma_contents_at(self.slots@, at as int);
                assert forall|order: Order| {
                    let after = self.slots@.update(at as int, Slot { key, order });
                    &&& table(after, self.mask)
                    &&& #[trigger] contents(self.slots@.update(at as int, Slot { key, order })) == contents(self.slots@).insert(key, order)
                    &&& contents(self.slots@).insert(key, order).dom() == contents(self.slots@).dom()
                } by {
                    lemma_fill(self.slots@, at as int, key, order);
                    let after = self.slots@.update(at as int, Slot { key, order });
                    lemma_chain_kept(self.slots@, after, self.mask);
                    assert(contents(self.slots@).insert(key, order).dom() =~= contents(self.slots@).dom());
                }
            }
            Some(&mut self.slots[at].order)
        }
    }

    /// Inserts where a slot is known to be free.
    fn place(&mut self, key: u64, value: Order)
        requires
            table(old(self).slots@, old(self).mask),
            old(self)@.dom().finite(),
            old(self).len == old(self)@.dom().len(),
            old(self)@.dom().len() < old(self).slots@.len(),
            key != 0,
        ensures
            table(final(self).slots@, final(self).mask),
            final(self)@ == old(self)@.insert(key, value),
            final(self)@.dom().finite(),
            final(self).len == final(self)@.dom().len(),
            final(self).slots@.len() == old(self).slots@.len(),
    {
        let at = self.find(key);
        let ghost before = self.slots@;
        proof {
            assert(self.slots.len() == self.slots@.len());
            if before[at as int].key == key {
                lemma_contents_at(before, at as int);
            }
            lemma_fill(before, at as int, key, value);
            lemma_home(self.mask, key);
        }
        if self.slots[at].key == 0 {
            self.len = self.len + 1;
        }
        self.slots[at] = Slot { key, order: value };
        proof {
            let after = self.slots@;
            assert(after =~= before.update(at as int, Slot { key, order: value }));
            assert forall|i: int, j: int|
                #![trigger after[i], after[j]]
                0 <= i < after.len() && 0 <= j < after.len() && after[i].key != 0 && dist(
                    after.len() as int,
                    home(self.mask, after[i].key),
                    j,
                ) < dist(after.len() as int, home(self.mask, after[i].key), i) implies after[j].key
                != 0 by {
                if i == at {
                    assert(before[j].key != 0);
                } else {
                    assert(before[i].key != 0);
                    assert(j == at || before[j].key != 0);
                }
            }
        }
    }

    pub fn insert(&mut self, key: u64, value: Order)
        requires
            old(self).wf(),
            key != 0,
            old(self).has_room(),
        ensures
            final(self).wf(),
            final(self)@ == old(self)@.insert(key, value),
            final(self).capacity() == (if old(self).full() {
                old(self).capacity() * 2
            } else {
                old(self).capacity()
            }),
    {
        // Grow at three-quarters full.
        if (self.len + 1) * 4 > self.slots.len() * 3 {
            self.grow();
        }
        proof {
            assert(self@.dom().insert(key).len() <= self@.dom().len() + 1);
        }
        self.place(key, value);
    }

    /// Whether [`OrderMap::insert`] can take one more order.
    #[must_use]
    pub fn can_insert(&self) -> (yes: bool)
        ensures
            yes == self.has_room(),
    {
        self.slots.len() <= usize::MAX / 4
    }

    fn grow(&mut self)
        requires
            old(self).wf(),
            old(self).slots@.len() * 2 <= usize::MAX,
        ensures
            final(self).wf(),
            final(self)@ == old(self)@,
            final(self).slots@.len() == old(self).slots@.len() * 2,
    {
        let ghost held = self.slots@;
        let mut wider = OrderMap {
            slots: vec![Slot { key: 0, order: Order::default() }; self.slots.len() * 2],
            mask: self.slots.len() * 2 - 1,
            len: 0,
        };
        proof {
            assert(wider@ =~= Map::empty());
            assert(contents(held.take(0)) =~= Map::empty());
        }
        let mut next: usize = 0;
        while next < self.slots.len()
            invariant
                next <= self.slots@.len(),
                *self == *old(self),
                held == self.slots@,
                self.wf(),
                table(wider.slots@, wider.mask),
                wider@ == contents(held.take(next as int)),
                wider@.dom().finite(),
                wider.len == wider@.dom().len(),
                wider.slots@.len() == 2 * held.len(),
            decreases self.slots@.len() - next,
        {
            let slot = self.slots[next];
            proof {
                lemma_prefix(held, next as int);
                vstd::set_lib::lemma_len_subset(wider@.dom(), self@.dom());
            }
            if slot.key != 0 {
                wider.place(slot.key, slot.order);
            }
            next = next + 1;
        }
        proof {
            assert(held.take(held.len() as int) =~= held);
        }
        self.slots = wider.slots;
        self.mask = wider.mask;
        self.len = wider.len;
    }

    /// Removes and returns the order, closing the probe gap by shifting
    /// followers back, so lookups never wade through tombstones.
    pub fn remove(&mut self, key: u64) -> (removed: Option<Order>)
        requires
            old(self).wf(),
        ensures
            final(self).wf(),
            final(self)@ == old(self)@.remove(key),
            final(self).capacity() == old(self).capacity(),
            match removed {
                Some(order) => old(self)@.contains_pair(key, order),
                None => !old(self)@.dom().contains(key),
            },
    {
        let at = self.find(key);
        if self.slots[at].key == 0 {
            assert(self@.remove(key) =~= self@);
            return None;
        }
        let removed = self.slots[at].order;
        let ghost cap = self.slots@.len() as int;
        let ghost gone = self.slots@.update(
            at as int,
            Slot { key: 0, order: self.slots@[at as int].order },
        );
        proof {
            assert(self.slots.len() == self.slots@.len());
            lemma_contents_at(self.slots@, at as int);
            lemma_drop(self.slots@, at as int);
            lemma_has_empty(self.slots@);
        }
        let ghost e = choose|e: int| 0 <= e < cap && (#[trigger] self.slots@[e]).key == 0;
        self.len = self.len - 1;
        // Any follower whose home slot is at or before the hole moves into it,
        // until an empty slot ends the cluster.
        let mut hole: usize = at;
        let mut probe: usize = following(self.mask, at);
        loop
            invariant_except_break
                cap == self.slots@.len() == self.slots.len() == self.mask + 1,
                at < cap,
                hole < cap,
                probe < cap,
                0 <= e < cap,
                e != at,
                e != hole,
                hole != probe,
                self.slots@[e].key == 0,
                0 < dist(cap, at as int, probe as int) <= dist(cap, at as int, e),
                dist(cap, at as int, hole as int) < dist(cap, at as int, probe as int),
                gone == self.slots@.update(
                    hole as int,
                    Slot { key: 0, order: self.slots@[hole as int].order },
                ),
                distinct(gone),
                contents(gone) == old(self)@.remove(key),
                chained(gone, self.mask, hole as int),
                // The slots between hole and probe are taken, and their orders
                // do not want the hole.
                forall|j: int|
                    #![trigger gone[j]]
                    0 <= j < cap && 0 < dist(cap, hole as int, j) < dist(
                        cap,
                        hole as int,
                        probe as int,
                    ) ==> gone[j].key != 0 && dist(cap, home(self.mask, gone[j].key), hole as int)
                        > dist(cap, home(self.mask, gone[j].key), j),
                self.len == old(self).len - 1,
                self.mask == old(self).mask,
                old(self).slots@.len() == cap,
            ensures
                cap == self.slots@.len() == self.slots.len() == self.mask + 1,
                hole < cap,
                gone == self.slots@.update(
                    hole as int,
                    Slot { key: 0, order: self.slots@[hole as int].order },
                ),
                distinct(gone),
                contents(gone) == old(self)@.remove(key),
                chained(gone, self.mask, -1),
                self.len == old(self).len - 1,
                self.mask == old(self).mask,
                old(self).slots@.len() == cap,
            decreases cap - dist(cap, at as int, probe as int),
        {
            let slot = self.slots[probe];
            assert(gone[probe as int] == slot);
            if slot.key == 0 {
                proof {
                    lemma_closed(gone, self.mask, hole as int, probe as int);
                }
                break ;
            }
            let start = self.slot(slot.key);
            let hole_distance = steps(self.mask, start, hole);
            let probe_distance = steps(self.mask, start, probe);
            if hole_distance <= probe_distance {
                self.slots[hole] = slot;
                proof {
                    let before = gone;
                    gone = self.slots@.update(
                        probe as int,
                        Slot { key: 0, order: self.slots@[probe as int].order },
                    );
                    lemma_shift(before, self.mask, hole as int, probe as int);
                    assert(gone =~= before.update(hole as int, slot).update(
                        probe as int,
                        Slot { key: 0, order: slot.order },
                    ));
                }
                hole = probe;
            }
            probe = following(self.mask, probe);
        }
        let order = self.slots[hole].order;
        self.slots[hole] = Slot { key: 0, order };
        assert(self.slots@ =~= gone);
        Some(removed)
    }

    #[must_use]
    pub fn len(&self) -> (len: usize)
        requires
            self.wf(),
        ensures
            len == self@.dom().len(),
    {
        self.len
    }

    #[must_use]
    pub fn is_empty(&self) -> (empty: bool)
        requires
            self.wf(),
        ensures
            empty == (self@ == Map::<u64, Order>::empty()),
    {
        proof {
            if self.len == 0 {
                assert(self@ =~= Map::empty());
            }
        }
        self.len == 0
    }
}

/// Moving an order back into the hole keeps what is held, and moves the hole.
proof fn lemma_shift(slots: Seq<Slot>, mask: usize, hole: int, probe: int)
    requires
        slots.len() == mask + 1,
        distinct(slots),
        chained(slots, mask, hole),
        0 <= hole < slots.len(),
        0 <= probe < slots.len(),
        hole != probe,
        slots[hole].key == 0,
        slots[probe].key != 0,
        dist(slots.len() as int, home(mask, slots[probe].key), hole) <= dist(
            slots.len() as int,
            home(mask, slots[probe].key),
            probe,
        ),
    ensures
        ({
            let after = slots.update(hole, slots[probe]).update(
                probe,
                Slot { key: 0, order: slots[probe].order },
            );
            &&& distinct(after)
            &&& contents(after) == contents(slots)
            &&& chained(after, mask, probe)
        }),
{
    let cap = slots.len() as int;
    let moved = slots[probe];
    let after = slots.update(hole, moved).update(probe, Slot { key: 0, order: moved.order });
    assert forall|i: int, j: int|
        #![trigger after[i], after[j]]
        0 <= i < cap && 0 <= j < cap && after[i].key != 0 && after[i].key == after[j].key implies i
        == j by {
        let a = if i == hole {
            probe
        } else {
            i
        };
        let b = if j == hole {
            probe
        } else {
            j
        };
        assert(slots[a].key == slots[b].key);
    }
    assert forall|k: u64|
        #![trigger contents(after).dom().contains(k)]
        #![trigger contents(slots).dom().contains(k)]
        #![trigger contents(after)[k]]
        #![trigger contents(slots)[k]]
        {
            &&& contents(after).dom().contains(k) == contents(slots).dom().contains(k)
            &&& contents(slots).dom().contains(k) ==> contents(after)[k] == contents(slots)[k]
        } by {
        if contents(after).dom().contains(k) {
            lemma_contents_has(after, k);
            let p = place_of(after, k);
            lemma_contents_at(
                slots,
                if p == hole {
                    probe
                } else {
                    p
                },
            );
        }
        if contents(slots).dom().contains(k) {
            lemma_contents_has(slots, k);
            let p = place_of(slots, k);
            lemma_contents_at(
                after,
                if p == probe {
                    hole
                } else {
                    p
                },
            );
        }
    }
    assert(contents(after) =~= contents(slots));
    assert forall|i: int, j: int|
        #![trigger after[i], after[j]]
        0 <= i < cap && 0 <= j < cap && after[i].key != 0 && dist(
            cap,
            home(mask, after[i].key),
            j,
        ) < dist(cap, home(mask, after[i].key), i) implies after[j].key != 0 || j == probe by {
        lemma_home(mask, after[i].key);
        if i == hole {
            assert(slots[probe] == after[i]);
            assert(slots[j].key != 0 || j == hole);
        } else {
            assert(slots[i] == after[i]);
            assert(slots[j].key != 0 || j == hole);
        }
    }
}

/// Where an empty slot follows the hole and no order in between wants it, the
/// hole breaks no chain.
proof fn lemma_closed(slots: Seq<Slot>, mask: usize, hole: int, probe: int)
    requires
        slots.len() == mask + 1,
        chained(slots, mask, hole),
        0 <= hole < slots.len(),
        0 <= probe < slots.len(),
        hole != probe,
        slots[probe].key == 0,
        forall|j: int|
            #![trigger slots[j]]
            0 <= j < slots.len() && 0 < dist(slots.len() as int, hole, j) < dist(
                slots.len() as int,
                hole,
                probe,
            ) ==> slots[j].key != 0 && dist(
                slots.len() as int,
                home(mask, slots[j].key),
                hole,
            ) > dist(slots.len() as int, home(mask, slots[j].key), j),
    ensures
        chained(slots, mask, -1),
{
    let cap = slots.len() as int;
    assert forall|i: int, j: int|
        #![trigger slots[i], slots[j]]
        0 <= i < cap && 0 <= j < cap && slots[i].key != 0 && dist(
            cap,
            home(mask, slots[i].key),
            j,
        ) < dist(cap, home(mask, slots[i].key), i) implies slots[j].key != 0 by {
        lemma_home(mask, slots[i].key);
        if j == hole && slots[hole].key == 0 {
            // The hole is on the way to `i`, so the empty slot is not.
            if dist(cap, hole, probe) < dist(cap, hole, i) {
                assert(slots[probe].key != 0 || probe == hole);
            }
        }
    }
}

/// The contents of the first slots, one slot at a time.
proof fn lemma_prefix(slots: Seq<Slot>, n: int)
    requires
        distinct(slots),
        0 <= n < slots.len(),
    ensures
        contents(slots.take(n)).dom().subset_of(contents(slots).dom()),
        slots[n].key == 0 ==> contents(slots.take(n + 1)) == contents(slots.take(n)),
        slots[n].key != 0 ==> contents(slots.take(n + 1)) == contents(slots.take(n)).insert(
            slots[n].key,
            slots[n].order,
        ),
{
    let before = slots.take(n);
    let after = slots.take(n + 1);
    assert forall|i: int, j: int|
        #![trigger after[i], after[j]]
        0 <= i < after.len() && 0 <= j < after.len() && after[i].key != 0 && after[i].key
            == after[j].key implies i == j by {
        assert(slots[i].key == slots[j].key);
    }
    assert forall|i: int, j: int|
        #![trigger before[i], before[j]]
        0 <= i < before.len() && 0 <= j < before.len() && before[i].key != 0 && before[i].key
            == before[j].key implies i == j by {
        assert(slots[i].key == slots[j].key);
    }
    assert forall|k: u64| contents(before).dom().contains(k) implies contents(
        slots,
    ).dom().contains(k) by {
        lemma_contents_has(before, k);
        lemma_contents_at(slots, place_of(before, k));
    }
    let want = if slots[n].key == 0 {
        contents(before)
    } else {
        contents(before).insert(slots[n].key, slots[n].order)
    };
    assert forall|k: u64|
        #![trigger contents(after).dom().contains(k)]
        #![trigger want.dom().contains(k)]
        #![trigger contents(after)[k]]
        #![trigger want[k]]
        {
            &&& contents(after).dom().contains(k) == want.dom().contains(k)
            &&& want.dom().contains(k) ==> contents(after)[k] == want[k]
        } by {
        if contents(after).dom().contains(k) {
            lemma_contents_has(after, k);
            let p = place_of(after, k);
            if p < n {
                lemma_contents_at(before, p);
            }
        }
        if slots[n].key != 0 && k == slots[n].key {
            lemma_contents_at(after, n);
        } else if contents(before).dom().contains(k) {
            lemma_contents_has(before, k);
            lemma_contents_at(after, place_of(before, k));
        }
    }
    assert(contents(after) =~= want);
}

/// Slots with the same keys form the same chains.
proof fn lemma_chain_kept(before: Seq<Slot>, after: Seq<Slot>, mask: usize)
    requires
        chained(before, mask, -1),
        before.len() == after.len(),
        forall|i: int|
            #![trigger after[i]]
            #![trigger before[i]]
            0 <= i < after.len() ==> after[i].key == before[i].key,
    ensures
        chained(after, mask, -1),
{
    assert forall|i: int, j: int|
        #![trigger after[i], after[j]]
        0 <= i < after.len() && 0 <= j < after.len() && after[i].key != 0 && dist(
            after.len() as int,
            home(mask, after[i].key),
            j,
        ) < dist(after.len() as int, home(mask, after[i].key), i) implies after[j].key != 0 by {
        assert(before[i].key == after[i].key && before[j].key == after[j].key);
    }
}

} // verus!
