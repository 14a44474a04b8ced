//! The same books on the standard library's collections: `BTreeMap` for the
//! ladders, `HashMap` for the orders. Different primitives, same semantics.

use std::collections::{BTreeMap, HashMap};

use vstd::prelude::*;

use crate::book;
use crate::book::ladder;
use crate::book::orders::Order;
use crate::feed::{Event, Kind, Side};

verus! {

#[derive(Debug)]
pub struct ReferenceSymbol {
    pub orders: HashMap<u64, Order>,
    pub bids: BTreeMap<i64, i64>,
    pub asks: BTreeMap<i64, i64>,
}

#[derive(Debug)]
pub struct ReferenceBooks {
    pub symbols: Vec<ReferenceSymbol>,
    pub unknown_orders: u64,
}

// --------------------------------------------------------------------- the model

/// What one symbol's book holds, with no window around it.
#[verifier::ext_equal]
pub struct PlainBook {
    pub orders: Map<u64, Order>,
    pub bids: Map<i64, i64>,
    pub asks: Map<i64, i64>,
}

pub open spec fn quantity(levels: Map<i64, i64>, price: i64) -> int {
    if levels.dom().contains(price) {
        levels[price] as int
    } else {
        0
    }
}

/// The quantity at a price made `qty`, where nothing positive means no level.
pub open spec fn level_set(levels: Map<i64, i64>, price: i64, qty: int) -> Map<i64, i64> {
    if qty > 0 {
        levels.insert(price, qty as i64)
    } else {
        levels.remove(price)
    }
}

pub open spec fn level_add(levels: Map<i64, i64>, price: i64, delta: i64) -> Map<i64, i64> {
    level_set(levels, price, quantity(levels, price) + delta)
}

impl PlainBook {
    pub open spec fn empty() -> PlainBook {
        PlainBook { orders: Map::empty(), bids: Map::empty(), asks: Map::empty() }
    }

    pub open spec fn side(self, side: Side) -> Map<i64, i64> {
        match side {
            Side::Bid => self.bids,
            Side::Ask => self.asks,
        }
    }

    pub open spec fn with_side(self, side: Side, levels: Map<i64, i64>) -> PlainBook {
        match side {
            Side::Bid => PlainBook { bids: levels, ..self },
            Side::Ask => PlainBook { asks: levels, ..self },
        }
    }

    pub open spec fn add(self, side: Side, price: i64, delta: i64) -> PlainBook {
        self.with_side(side, level_add(self.side(side), price, delta))
    }

    pub open spec fn rest(self, id: u64, order: Order) -> PlainBook {
        PlainBook { orders: self.orders.insert(id, order), ..self }.add(
            order.side,
            order.price,
            order.qty,
        )
    }

    pub open spec fn reduce(self, id: u64, qty: i64) -> PlainBook {
        let order = self.orders[id];
        let taken = book::lesser(qty, order.qty);
        let left = (order.qty - taken) as i64;
        let orders = if left == 0 {
            self.orders.remove(id)
        } else {
            self.orders.insert(id, Order { qty: left, ..order })
        };
        PlainBook { orders, ..self }.add(order.side, order.price, (-taken) as i64)
    }

    pub open spec fn lift(self, id: u64) -> PlainBook {
        let order = self.orders[id];
        PlainBook { orders: self.orders.remove(id), ..self }.add(
            order.side,
            order.price,
            (-order.qty) as i64,
        )
    }

    pub open spec fn is_unknown(self, event: Event) -> bool {
        &&& event.kind is Execute || event.kind is Cancel || event.kind is Delete || event.kind
            is Replace
        &&& !self.orders.dom().contains(event.order_id)
    }

    pub open spec fn apply(self, event: Event) -> PlainBook {
        if self.is_unknown(event) {
            self
        } else {
            match event.kind {
                Kind::Add => self.rest(event.order_id, book::order_of(event, event.side)),
                Kind::Execute | Kind::Cancel => self.reduce(event.order_id, event.qty),
                Kind::Delete => self.lift(event.order_id),
                Kind::Replace => {
                    let side = self.orders[event.order_id].side;
                    self.lift(event.order_id).rest(event.aux, book::order_of(event, side))
                },
                Kind::Level => self.with_side(
                    event.side,
                    level_set(self.side(event.side), event.price, event.qty as int),
                ),
                Kind::Trade => self,
            }
        }
    }

    pub open spec fn admits_add(self, side: Side, price: i64, delta: i64) -> bool {
        i64::MIN <= quantity(self.side(side), price) + delta <= i64::MAX
    }

    pub open spec fn admits_lift(self, id: u64) -> bool {
        let order = self.orders[id];
        &&& order.qty > i64::MIN
        &&& self.admits_add(order.side, order.price, (-order.qty) as i64)
    }

    /// Whether the arithmetic of applying `event` stays in range.
    pub open spec fn admits(self, event: Event) -> bool {
        self.is_unknown(event) || match event.kind {
            Kind::Add => self.admits_add(event.side, event.price, event.qty),
            Kind::Execute | Kind::Cancel => {
                let order = self.orders[event.order_id];
                let taken = book::lesser(event.qty, order.qty);
                &&& order.qty - taken <= i64::MAX
                &&& taken > i64::MIN
                &&& self.admits_add(order.side, order.price, (-taken) as i64)
            },
            Kind::Delete => self.admits_lift(event.order_id),
            Kind::Replace => {
                let side = self.orders[event.order_id].side;
                &&& self.admits_lift(event.order_id)
                &&& self.lift(event.order_id).admits_add(side, event.price, event.qty)
            },
            Kind::Level => true,
            Kind::Trade => true,
        }
    }
}

/// What all the books hold.
#[verifier::ext_equal]
pub struct PlainBooks {
    pub symbols: Seq<PlainBook>,
    pub unknown_orders: nat,
}

impl PlainBooks {
    pub open spec fn empty(symbol_count: nat) -> PlainBooks {
        PlainBooks {
            symbols: Seq::new(symbol_count, |i: int| PlainBook::empty()),
            unknown_orders: 0,
        }
    }

    pub open spec fn apply(self, event: Event) -> PlainBooks {
        let at = event.symbol as int;
        let book = self.symbols[at];
        if book.is_unknown(event) {
            PlainBooks { unknown_orders: self.unknown_orders + 1, ..self }
        } else {
            PlainBooks { symbols: self.symbols.update(at, book.apply(event)), ..self }
        }
    }

    pub open spec fn admits(self, event: Event) -> bool {
        &&& event.symbol < self.symbols.len()
        &&& self.symbols[event.symbol as int].admits(event)
        &&& self.symbols[event.symbol as int].is_unknown(event) ==> self.unknown_orders < u64::MAX
    }
}

// ---------------------------------------------------------------------- the books

impl View for ReferenceSymbol {
    type V = PlainBook;

    open spec fn view(&self) -> PlainBook {
        PlainBook { orders: self.orders@, bids: self.bids@, asks: self.asks@ }
    }
}

impl Default for ReferenceSymbol {
    fn default() -> (book: Self)
        ensures
            book@ == PlainBook::empty(),
    {
        ReferenceSymbol { orders: HashMap::new(), bids: BTreeMap::new(), asks: BTreeMap::new() }
    }
}

fn set_level(levels: &mut BTreeMap<i64, i64>, price: i64, qty: i64)
    ensures
        final(levels)@ == level_set(old(levels)@, price, qty as int),
{
    if qty <= 0 {
        levels.remove(&price);
    } else {
        levels.insert(price, qty);
    }
}

fn add_level(levels: &mut BTreeMap<i64, i64>, price: i64, delta: i64)
    requires
        i64::MIN <= quantity(old(levels)@, price) + delta <= i64::MAX,
    ensures
        final(levels)@ == level_add(old(levels)@, price, delta),
{
    let held: i64 = match levels.get(&price) {
        Some(qty) => *qty,
        None => 0,
    };
    set_level(levels, price, held + delta);
}

/// Walking a map in key order starts at the least key and ends at the greatest.
proof fn lemma_ends(levels: Map<i64, i64>, walk: Seq<(&i64, &i64)>)
    requires
        vstd::std_specs::btree::increasing_seq(walk.map_values(|kv: (&i64, &i64)| *kv.0)),
        forall|i: int|
            #![trigger walk[i]]
            0 <= i < walk.len() ==> levels.contains_pair(*walk[i].0, *walk[i].1),
        forall|price: i64|
            levels.dom().contains(price) ==> #[trigger] walk.contains((&price, &levels[price])),
    ensures
        walk.len() > 0 ==> ladder::is_touch(levels, true, (*walk[0].0, *walk[0].1)),
        walk.len() > 0 ==> ladder::is_touch(
            levels,
            false,
            (*walk[walk.len() - 1].0, *walk[walk.len() - 1].1),
        ),
        walk.len() == 0 ==> levels =~= Map::empty(),
{
    let prices = walk.map_values(|kv: (&i64, &i64)| *kv.0);
    assert forall|i: int, j: int| 0 <= i < j < prices.len() implies prices[i] < prices[j] by {
        assert(vstd::std_specs::cmp::OrdSpec::cmp_spec(&prices[i], &prices[j]) is Less);
    }
    assert forall|price: i64| levels.dom().contains(price) implies exists|i: int|
        0 <= i < prices.len() && #[trigger] prices[i] == price by {
        assert(walk.contains((&price, &levels[price])));
        let i = choose|i: int| 0 <= i < walk.len() && walk[i] == (&price, &levels[price]);
        assert(prices[i] == price);
    }
    if walk.len() > 0 {
        assert(prices[0] == *walk[0].0);
        assert(prices[walk.len() - 1] == *walk[walk.len() - 1].0);
    }
}

impl ReferenceSymbol {
    fn add(&mut self, side: Side, price: i64, delta: i64)
        requires
            old(self)@.admits_add(side, price, delta),
        ensures
            final(self)@ == old(self)@.add(side, price, delta),
    {
        match side {
            Side::Bid => add_level(&mut self.bids, price, delta),
            Side::Ask => add_level(&mut self.asks, price, delta),
        }
    }

    fn set(&mut self, side: Side, price: i64, qty: i64)
        ensures
            final(self)@ == old(self)@.with_side(
                side,
                level_set(old(self)@.side(side), price, qty as int),
            ),
    {
        match side {
            Side::Bid => set_level(&mut self.bids, price, qty),
            Side::Ask => set_level(&mut self.asks, price, qty),
        }
    }

    /// Applies an event; `false` where it speaks of an unknown order.
    fn apply(&mut self, event: &Event) -> (known: bool)
        requires
            old(self)@.admits(*event),
        ensures
            known == !old(self)@.is_unknown(*event),
            final(self)@ == old(self)@.apply(*event),
    {
        match event.kind {
            Kind::Add => {
                self.orders.insert(
                    event.order_id,
                    Order {
                        symbol: event.symbol,
                        side: event.side,
                        price: event.price,
                        qty: event.qty,
                    },
                );
                self.add(event.side, event.price, event.qty);
            },
            Kind::Execute | Kind::Cancel => {
                let order: Order = match self.orders.get(&event.order_id) {
                    None => {
                        return false;
                    },
                    Some(order) => *order,
                };
                let taken = if event.qty < order.qty {
                    event.qty
                } else {
                    order.qty
                };
                let left = order.qty - taken;
                if left == 0 {
                    self.orders.remove(&event.order_id);
                } else {
                    self.orders.insert(event.order_id, Order { qty: left, ..order });
                }
                self.add(order.side, order.price, -taken);
            },
            Kind::Delete => {
                match self.orders.remove(&event.order_id) {
                    None => {
                        assert(self@.orders =~= old(self)@.orders);
                        return false;
                    },
                    Some(order) => {
                        self.add(order.side, order.price, -order.qty);
                    },
                }
            },
            Kind::Replace => {
                match self.orders.remove(&event.order_id) {
                    None => {
                        assert(self@.orders =~= old(self)@.orders);
                        return false;
                    },
                    Some(order) => {
                        self.add(order.side, order.price, -order.qty);
                        self.orders.insert(
                            event.aux,
                            Order {
                                symbol: event.symbol,
                                side: order.side,
                                price: event.price,
                                qty: event.qty,
                            },
                        );
                        self.add(order.side, event.price, event.qty);
                    },
                }
            },
            Kind::Level => {
                self.set(event.side, event.price, event.qty);
            },
            Kind::Trade => {},
        }
        true
    }

    #[must_use]
    pub fn best_bid(&self) -> (touch: Option<(i64, i64)>)
        ensures
            touch == ladder::touch(self@.bids, false),
            match touch {
                Some(touch) => ladder::is_touch(self@.bids, false, touch),
                None => self@.bids =~= Map::empty(),
            },
    {
        let mut touch: Option<(i64, i64)> = None;
        for level in iter: self.bids.iter()
            invariant
                iter.seq().len() == self.bids@.dom().len(),
                vstd::std_specs::btree::increasing_seq(
                    iter.seq().map_values(|kv: (&i64, &i64)| *kv.0),
                ),
                forall|i: int|
                    #![trigger iter.seq()[i]]
                    0 <= i < iter.seq().len() ==> self.bids@.contains_pair(
                        *iter.seq()[i].0,
                        *iter.seq()[i].1,
                    ),
                forall|price: i64|
                    self.bids@.dom().contains(price) ==> #[trigger] iter.seq().contains(
                        (&price, &self.bids@[price]),
                    ),
                iter.index() == 0 ==> touch is None,
                iter.index() > 0 ==> touch is Some,
                iter.index() > 0 && iter.index() == iter.seq().len() ==> ladder::is_touch(
                    self.bids@,
                    false,
                    touch->0,
                ),
        {
            touch = Some((*level.0, *level.1));
            proof {
                lemma_ends(self.bids@, iter.seq());
            }
        }
        proof {
            ladder::lemma_no_touch(false);
            if let Some(best) = touch {
                ladder::lemma_touch_is(self.bids@, false, best);
            } else {
                assert(self.bids@ =~= Map::empty());
            }
        }
        touch
    }

    #[must_use]
    pub fn best_ask(&self) -> (touch: Option<(i64, i64)>)
        ensures
            touch == ladder::touch(self@.asks, true),
            match touch {
                Some(touch) => ladder::is_touch(self@.asks, true, touch),
                None => self@.asks =~= Map::empty(),
            },
    {
        for level in iter: self.asks.iter()
            invariant
                iter.index() == 0,
                iter.seq().len() == self.asks@.dom().len(),
                vstd::std_specs::btree::increasing_seq(
                    iter.seq().map_values(|kv: (&i64, &i64)| *kv.0),
                ),
                forall|i: int|
                    #![trigger iter.seq()[i]]
                    0 <= i < iter.seq().len() ==> self.asks@.contains_pair(
                        *iter.seq()[i].0,
                        *iter.seq()[i].1,
                    ),
                forall|price: i64|
                    self.asks@.dom().contains(price) ==> #[trigger] iter.seq().contains(
                        (&price, &self.asks@[price]),
                    ),
        {
            proof {
                lemma_ends(self.asks@, iter.seq());
                ladder::lemma_touch_is(self.asks@, true, (*level.0, *level.1));
            }
            return Some((*level.0, *level.1));
        }
        proof {
            ladder::lemma_no_touch(true);
            assert(self.asks@ =~= Map::empty());
        }
        None
    }
}

impl View for ReferenceBooks {
    type V = PlainBooks;

    open spec fn view(&self) -> PlainBooks {
        PlainBooks {
            symbols: self.symbols@.map_values(|book: ReferenceSymbol| book@),
            unknown_orders: self.unknown_orders as nat,
        }
    }
}

impl ReferenceBooks {
    #[must_use]
    pub fn new(symbol_count: usize) -> (books: Self)
        ensures
            books@ == PlainBooks::empty(symbol_count as nat),
    {
        let mut symbols: Vec<ReferenceSymbol> = Vec::new();
        let mut i: usize = 0;
        while i < symbol_count
            invariant
                i <= symbol_count,
                symbols@.len() == i,
                forall|j: int|
                    #![trigger symbols@[j]]
                    0 <= j < i ==> symbols@[j]@ == PlainBook::empty(),
            decreases symbol_count - i,
        {
            symbols.push(ReferenceSymbol::default());
            i = i + 1;
        }
        let books = ReferenceBooks { symbols, unknown_orders: 0 };
        assert(books@.symbols =~= PlainBooks::empty(symbol_count as nat).symbols);
        books
    }

    pub fn apply(&mut self, event: &Event)
        requires
            old(self)@.admits(*event),
        ensures
            final(self)@ == old(self)@.apply(*event),
    {
        let at = event.symbol as usize;
        assert(self@.symbols[at as int] == self.symbols@[at as int]@);
        let known = self.symbols[at].apply(event);
        if !known {
            self.unknown_orders = self.unknown_orders + 1;
        }
        assert(self@.symbols =~= old(self)@.apply(*event).symbols);
    }
}

} // verus!
