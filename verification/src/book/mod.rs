//! Book maintenance: the normalized event stream in, best-bid-offer and depth
//! out. L3 keeps every order; L2 keeps the aggregate per price.
//!
//! Two structures do the work. A [`ladder::Ladder`] is a dense quantity array
//! over a window of the price grid, with an occupancy bitmap for finding the
//! next live level. An [`orders::OrderMap`] takes an order ID to its order.

use vstd::prelude::*;

use crate::book::ladder::{Band, Ladder, LadderState};
use crate::book::orders::{Order, OrderMap};
use crate::feed::{Event, Kind, Side};
use crate::powers;

pub mod aggregate;
pub mod agreement;
pub mod bitmap;
pub mod ladder;
pub mod orders;
pub mod reference;

verus! {

/// Orders that a book is first sized for.
pub const FIRST_ORDERS: usize = 4_096;

/// One symbol's book: the order table and both sides' ladders.
#[derive(Debug)]
pub struct SymbolBook {
    pub orders: OrderMap,
    pub bids: Ladder,
    pub asks: Ladder,
}

/// What one symbol's book holds.
#[verifier::ext_equal]
pub struct BookState {
    pub orders: Map<u64, Order>,
    pub bids: LadderState,
    pub asks: LadderState,
}

pub open spec fn lesser(a: i64, b: i64) -> i64 {
    if a < b {
        a
    } else {
        b
    }
}

impl BookState {
    pub open spec fn empty(band: Band) -> BookState {
        BookState {
            orders: Map::empty(),
            bids: LadderState::empty(band, false),
            asks: LadderState::empty(band, true),
        }
    }

    pub open spec fn side(self, side: Side) -> LadderState {
        match side {
            Side::Bid => self.bids,
            Side::Ask => self.asks,
        }
    }

    pub open spec fn with_side(self, side: Side, ladder: LadderState) -> BookState {
        match side {
            Side::Bid => BookState { bids: ladder, ..self },
            Side::Ask => BookState { asks: ladder, ..self },
        }
    }

    /// Quantity added to a level.
    pub open spec fn add(self, side: Side, price: i64, delta: i64) -> BookState {
        self.with_side(side, self.side(side).add(price, delta))
    }

    /// A new order and its quantity.
    pub open spec fn rest(self, id: u64, order: Order) -> BookState {
        BookState { orders: self.orders.insert(id, order), ..self }.add(
            order.side,
            order.price,
            order.qty,
        )
    }

    /// Quantity off a resting order; one with nothing left is gone.
    pub open spec fn reduce(self, id: u64, qty: i64) -> BookState {
        let order = self.orders[id];
        let taken = lesser(qty, order.qty);
        let left = (order.qty - taken) as i64;
        let orders = if left == 0 {
            self.orders.remove(id)
        } else {
            self.orders.insert(id, Order { qty: left, ..order })
        };
        BookState { orders, ..self }.add(order.side, order.price, (-taken) as i64)
    }

    /// A resting order and its quantity gone.
    pub open spec fn lift(self, id: u64) -> BookState {
        let order = self.orders[id];
        BookState { orders: self.orders.remove(id), ..self }.add(
            order.side,
            order.price,
            (-order.qty) as i64,
        )
    }

    /// Whether `event` speaks of an order that is not resting.
    pub open spec fn is_unknown(self, event: Event) -> bool {
        &&& event.kind is Execute || event.kind is Cancel || event.kind is Delete || event.kind
            is Replace
        &&& !self.orders.dom().contains(event.order_id)
    }

    /// The book after `event`. An unknown order leaves it as it was.
    pub open spec fn apply(self, event: Event) -> BookState {
        if self.is_unknown(event) {
            self
        } else {
            match event.kind {
                Kind::Add => self.rest(event.order_id, order_of(event, event.side)),
                Kind::Execute | Kind::Cancel => self.reduce(event.order_id, event.qty),
                Kind::Delete => self.lift(event.order_id),
                Kind::Replace => {
                    let side = self.orders[event.order_id].side;
                    self.lift(event.order_id).rest(event.aux, order_of(event, side))
                },
                Kind::Level => self.with_side(
                    event.side,
                    self.side(event.side).set(event.price, event.qty),
                ),
                // Prints inform, they do not move the book.
                Kind::Trade => self,
            }
        }
    }

    pub open spec fn admits_reduce(self, id: u64, qty: i64) -> bool {
        let order = self.orders[id];
        let taken = lesser(qty, order.qty);
        &&& order.qty - taken <= i64::MAX
        &&& taken > i64::MIN
        &&& self.side(order.side).admits_add(order.price, (-taken) as i64)
    }

    pub open spec fn admits_lift(self, id: u64) -> bool {
        let order = self.orders[id];
        &&& order.qty > i64::MIN
        &&& self.side(order.side).admits_add(order.price, (-order.qty) as i64)
    }

    pub open spec fn admits_rest(self, id: u64, order: Order) -> bool {
        &&& id != 0
        &&& self.side(order.side).admits_add(order.price, order.qty)
    }

    /// Whether the arithmetic of applying `event` stays in range.
    pub open spec fn admits(self, event: Event) -> bool {
        self.is_unknown(event) || match event.kind {
            Kind::Add => self.admits_rest(event.order_id, order_of(event, event.side)),
            Kind::Execute | Kind::Cancel => self.admits_reduce(event.order_id, event.qty),
            Kind::Delete => self.admits_lift(event.order_id),
            Kind::Replace => {
                let side = self.orders[event.order_id].side;
                &&& self.admits_lift(event.order_id)
                &&& self.lift(event.order_id).admits_rest(event.aux, order_of(event, side))
            },
            Kind::Level => self.side(event.side).admits(event.price as int),
            Kind::Trade => true,
        }
    }
}

/// The order that `event` rests on `side`.
pub open spec fn order_of(event: Event, side: Side) -> Order {
    Order { symbol: event.symbol, side, price: event.price, qty: event.qty }
}

/// Whether `event` puts an order on the book.
pub open spec fn rests(event: Event) -> bool {
    event.kind is Add || event.kind is Replace
}

impl View for SymbolBook {
    type V = BookState;

    open spec fn view(&self) -> BookState {
        BookState { orders: self.orders@, bids: self.bids@, asks: self.asks@ }
    }
}

impl SymbolBook {
    pub open spec fn wf(&self) -> bool {
        &&& self.orders.wf()
        &&& self.bids.wf()
        &&& self.asks.wf()
        &&& !self.bids@.descending
        &&& self.asks@.descending
    }

    #[must_use]
    pub fn new(band: Band) -> (book: Self)
        requires
            band.fits(),
        ensures
            book.wf(),
            book@ == BookState::empty(band),
            book.orders.capacity() == 2 * FIRST_ORDERS,
    {
        proof {
            reveal_with_fuel(powers::ceil_log2, 13);
            assert(powers::ceil_log2(4_096) == 12);
            vstd::arithmetic::power2::lemma2_to64();
        }
        SymbolBook {
            orders: OrderMap::with_capacity(FIRST_ORDERS),
            bids: Ladder::bids(band),
            asks: Ladder::asks(band),
        }
    }

    fn side_mut(&mut self, side: Side) -> (ladder: &mut Ladder)
        ensures
            match side {
                Side::Bid => {
                    &&& *ladder == old(self).bids
                    &&& *final(self) == (SymbolBook { bids: *final(ladder), ..*old(self) })
                },
                Side::Ask => {
                    &&& *ladder == old(self).asks
                    &&& *final(self) == (SymbolBook { asks: *final(ladder), ..*old(self) })
                },
            },
    {
        match side {
            Side::Bid => &mut self.bids,
            Side::Ask => &mut self.asks,
        }
    }

    /// Adds quantity on a side.
    fn add(&mut self, side: Side, price: i64, delta: i64)
        requires
            old(self).wf(),
            old(self)@.side(side).admits_add(price, delta),
        ensures
            final(self).wf(),
            final(self)@ == old(self)@.add(side, price, delta),
            final(self).orders == old(self).orders,
    {
        self.side_mut(side).add(price, delta);
    }
}

impl SymbolBook {
    /// Puts an order on the book.
    fn rest(&mut self, id: u64, order: Order)
        requires
            old(self).wf(),
            old(self)@.admits_rest(id, order),
            old(self).orders.has_room(),
        ensures
            final(self).wf(),
            final(self)@ == old(self)@.rest(id, order),
            final(self).orders.capacity() == (if old(self).orders.full() {
                old(self).orders.capacity() * 2
            } else {
                old(self).orders.capacity()
            }),
    {
        self.orders.insert(id, order);
        self.add(order.side, order.price, order.qty);
    }

    /// Takes quantity off a resting order; `false` where it is unknown.
    fn reduce(&mut self, id: u64, qty: i64) -> (known: bool)
        requires
            old(self).wf(),
            old(self)@.orders.dom().contains(id) ==> old(self)@.admits_reduce(id, qty),
        ensures
            final(self).wf(),
            known == old(self)@.orders.dom().contains(id),
            final(self)@ == (if known {
                old(self)@.reduce(id, qty)
            } else {
                old(self)@
            }),
            final(self).orders.capacity() == old(self).orders.capacity(),
    {
        let (side, price, taken, gone) = match self.orders.get_mut(id) {
            None => {
                return false;
            },
            Some(order) => {
                let taken = if qty < order.qty {
                    qty
                } else {
                    order.qty
                };
                order.qty = order.qty - taken;
                (order.side, order.price, taken, order.qty == 0)
            },
        };
        if gone {
            self.orders.remove(id);
            proof {
                let left = old(self)@.orders[id].qty - taken;
                assert(old(self)@.orders.insert(
                    id,
                    Order { qty: left as i64, ..old(self)@.orders[id] },
                ).remove(id) =~= old(self)@.orders.remove(id));
            }
        }
        self.add(side, price, -taken);
        true
    }

    /// Takes a resting order off the book, if it is known.
    fn lift(&mut self, id: u64) -> (lifted: Option<Order>)
        requires
            old(self).wf(),
            old(self)@.orders.dom().contains(id) ==> old(self)@.admits_lift(id),
        ensures
            final(self).wf(),
            match lifted {
                Some(order) => {
                    &&& old(self)@.orders.contains_pair(id, order)
                    &&& final(self)@ == old(self)@.lift(id)
                    &&& final(self)@.orders == old(self)@.orders.remove(id)
                },
                None => !old(self)@.orders.dom().contains(id) && final(self)@ == old(self)@,
            },
            final(self).orders.capacity() == old(self).orders.capacity(),
    {
        match self.orders.remove(id) {
            None => {
                assert(old(self)@.orders.remove(id) =~= old(self)@.orders);
                None
            },
            Some(order) => {
                self.add(order.side, order.price, -order.qty);
                Some(order)
            },
        }
    }

    /// Whether quantity can be added on a side.
    fn admits_add(&self, side: Side, price: i64, delta: i64) -> (yes: bool)
        requires
            self.wf(),
        ensures
            yes == self@.side(side).admits_add(price, delta),
    {
        match side {
            Side::Bid => self.bids.admits_add(price, delta),
            Side::Ask => self.asks.admits_add(price, delta),
        }
    }

    /// Whether [`SymbolBook::rest`] can take an order.
    fn admits_rest(&self, id: u64, order: &Order) -> (yes: bool)
        requires
            self.wf(),
        ensures
            yes == (self@.admits_rest(id, *order) && self.orders.has_room()),
    {
        id != 0 && self.orders.can_insert() && self.admits_add(order.side, order.price, order.qty)
    }

    /// Whether [`SymbolBook::reduce`] can take its quantity.
    fn admits_reduce(&self, id: u64, qty: i64) -> (yes: bool)
        requires
            self.wf(),
        ensures
            yes == (self@.orders.dom().contains(id) ==> self@.admits_reduce(id, qty)),
    {
        match self.orders.get(id) {
            None => true,
            Some(order) => {
                let taken = if qty < order.qty {
                    qty
                } else {
                    order.qty
                };
                order.qty as i128 - taken as i128 <= i64::MAX as i128 && taken > i64::MIN
                    && self.admits_add(order.side, order.price, -taken)
            },
        }
    }

    /// Whether [`SymbolBook::lift`] can take an order off.
    fn admits_lift(&self, id: u64) -> (yes: bool)
        requires
            self.wf(),
        ensures
            yes == (self@.orders.dom().contains(id) ==> self@.admits_lift(id)),
    {
        match self.orders.get(id) {
            None => true,
            Some(order) => order.qty > i64::MIN && self.admits_add(
                order.side,
                order.price,
                -order.qty,
            ),
        }
    }

    /// Applies an event if it is admitted. `None` where it is not, and then a
    /// replacement may have taken its old order off already; otherwise whether
    /// the order it speaks of was known.
    fn try_apply(&mut self, event: &Event) -> (known: Option<bool>)
        requires
            old(self).wf(),
        ensures
            final(self).wf(),
            known is Some <==> old(self)@.admits(*event) && (rests(*event)
                && !old(self)@.is_unknown(*event) ==> old(self).orders.has_room()),
            known matches Some(known) ==> {
                &&& known == !old(self)@.is_unknown(*event)
                &&& final(self)@ == old(self)@.apply(*event)
                &&& final(self).orders.capacity() == capacity_after(
                    old(self)@,
                    old(self).orders.capacity(),
                    *event,
                )
            },
            known is None ==> final(self).orders.capacity() == old(self).orders.capacity(),
            known is None ==> final(self)@ == old(self)@ || event.kind is Replace
                && old(self)@.admits_lift(event.order_id) && final(self)@ == old(self)@.lift(
                event.order_id,
            ),
    {
        match event.kind {
            Kind::Add => {
                let order = Order {
                    symbol: event.symbol,
                    side: event.side,
                    price: event.price,
                    qty: event.qty,
                };
                if !self.admits_rest(event.order_id, &order) {
                    return None;
                }
                self.rest(event.order_id, order);
                Some(true)
            },
            Kind::Execute | Kind::Cancel => {
                if !self.admits_reduce(event.order_id, event.qty) {
                    return None;
                }
                Some(self.reduce(event.order_id, event.qty))
            },
            Kind::Delete => {
                if !self.admits_lift(event.order_id) {
                    return None;
                }
                Some(self.lift(event.order_id).is_some())
            },
            Kind::Replace => {
                if !self.admits_lift(event.order_id) {
                    return None;
                }
                match self.lift(event.order_id) {
                    None => Some(false),
                    Some(lifted) => {
                        let order = Order {
                            symbol: event.symbol,
                            side: lifted.side,
                            price: event.price,
                            qty: event.qty,
                        };
                        if !self.admits_rest(event.aux, &order) {
                            return None;
                        }
                        self.rest(event.aux, order);
                        Some(true)
                    },
                }
            },
            Kind::Level => {
                let admitted = match event.side {
                    Side::Bid => self.bids.admits(event.price),
                    Side::Ask => self.asks.admits(event.price),
                };
                if !admitted {
                    return None;
                }
                self.side_mut(event.side).set(event.price, event.qty);
                Some(true)
            },
            Kind::Trade => Some(true),
        }
    }

    /// Applies an event; `false` where it speaks of an unknown order.
    fn apply(&mut self, event: &Event) -> (known: bool)
        requires
            old(self).wf(),
            old(self)@.admits(*event),
            rests(*event) && !old(self)@.is_unknown(*event) ==> old(self).orders.has_room(),
        ensures
            final(self).wf(),
            known == !old(self)@.is_unknown(*event),
            final(self)@ == old(self)@.apply(*event),
            final(self).orders.capacity() == capacity_after(
                old(self)@,
                old(self).orders.capacity(),
                *event,
            ),
    {
        match event.kind {
            Kind::Add => {
                self.rest(
                    event.order_id,
                    Order {
                        symbol: event.symbol,
                        side: event.side,
                        price: event.price,
                        qty: event.qty,
                    },
                );
                true
            },
            Kind::Execute | Kind::Cancel => self.reduce(event.order_id, event.qty),
            Kind::Delete => self.lift(event.order_id).is_some(),
            Kind::Replace => match self.lift(event.order_id) {
                None => false,
                Some(lifted) => {
                    self.rest(
                        event.aux,
                        Order {
                            symbol: event.symbol,
                            side: lifted.side,
                            price: event.price,
                            qty: event.qty,
                        },
                    );
                    true
                },
            },
            Kind::Level => {
                self.side_mut(event.side).set(event.price, event.qty);
                true
            },
            Kind::Trade => true,  // prints inform, they do not move the book
        }
    }
}

/// The slots of a book's order table, `cap` of them, once `event` is applied.
pub open spec fn capacity_after(book: BookState, cap: nat, event: Event) -> nat {
    let orders = if event.kind is Replace {
        book.orders.remove(event.order_id)
    } else {
        book.orders
    };
    if rests(event) && !book.is_unknown(event) && (orders.dom().len() + 1) * 4 > cap * 3 {
        cap * 2
    } else {
        cap
    }
}

/// Books for every symbol in the feed's table, applying the normalized
/// stream. Unknown order IDs are counted, not applied: on a real feed that is
/// a gap you missed, and the number on the counter is the alarm.
#[derive(Debug)]
pub struct Books {
    symbols: Vec<SymbolBook>,
    pub unknown_orders: u64,
}

/// What all the books hold.
#[verifier::ext_equal]
pub struct BooksState {
    pub symbols: Seq<BookState>,
    pub unknown_orders: nat,
}

impl BooksState {
    pub open spec fn empty(symbol_count: nat, band: Band) -> BooksState {
        BooksState {
            symbols: Seq::new(symbol_count, |i: int| BookState::empty(band)),
            unknown_orders: 0,
        }
    }

    pub open spec fn apply(self, event: Event) -> BooksState {
        let at = event.symbol as int;
        let book = self.symbols[at];
        if book.is_unknown(event) {
            BooksState { unknown_orders: self.unknown_orders + 1, ..self }
        } else {
            BooksState { symbols: self.symbols.update(at, book.apply(event)), ..self }
        }
    }

    pub open spec fn admits(self, event: Event) -> bool {
        &&& event.symbol < self.symbols.len()
        &&& self.symbols[event.symbol as int].admits(event)
        &&& self.symbols[event.symbol as int].is_unknown(event) ==> self.unknown_orders < u64::MAX
    }

    /// Whether every book could hold `more` orders more and still be far from
    /// what an order table can grow to.
    pub open spec fn room_for(self, more: nat) -> bool {
        forall|i: int|
            #![trigger self.symbols[i]]
            0 <= i < self.symbols.len() ==> {
                &&& self.symbols[i].orders.dom().finite()
                &&& self.symbols[i].orders.dom().len() + more < usize::MAX / 16
            }
    }

    /// The books that a refused event leaves behind: nothing changed, or, where
    /// it is a replacement whose new order is refused, its old order is gone.
    pub open spec fn refuses(self, event: Event, after: BooksState) -> bool {
        let at = event.symbol as int;
        ||| after == self
        ||| {
            &&& event.kind is Replace
            &&& at < self.symbols.len()
            &&& self.symbols[at].admits_lift(event.order_id)
            &&& after == (BooksState {
                symbols: self.symbols.update(at, self.symbols[at].lift(event.order_id)),
                ..self
            })
        }
    }
}

/// An event takes up the room of one order at most.
pub proof fn lemma_room_kept(books: BooksState, event: Event, more: nat)
    requires
        books.room_for(more + 1),
        event.symbol < books.symbols.len(),
    ensures
        books.apply(event).room_for(more),
{
    let at = event.symbol as int;
    let book = books.symbols[at];
    let after = books.apply(event);
    assert(book.orders.dom().finite());
    assert forall|i: int|
        #![trigger after.symbols[i]]
        0 <= i < after.symbols.len() implies {
        &&& after.symbols[i].orders.dom().finite()
        &&& after.symbols[i].orders.dom().len() + more < usize::MAX / 16
    } by {
        assert(books.symbols[i].orders.dom().finite());
        if i == at && !book.is_unknown(event) {
            match event.kind {
                Kind::Execute | Kind::Cancel => {
                    let order = book.orders[event.order_id];
                    let left = (order.qty - lesser(event.qty, order.qty)) as i64;
                    assert(book.orders.insert(event.order_id, Order { qty: left, ..order }).dom()
                        =~= book.orders.dom());
                },
                _ => {},
            }
        }
    }
}

impl View for Books {
    type V = BooksState;

    closed spec fn view(&self) -> BooksState {
        BooksState {
            symbols: self.symbols@.map_values(|book: SymbolBook| book@),
            unknown_orders: self.unknown_orders as nat,
        }
    }
}

impl Books {
    pub closed spec fn wf(&self) -> bool {
        forall|i: int| 0 <= i < self.symbols@.len() ==> (#[trigger] self.symbols@[i]).wf()
    }

    /// Slots in a symbol's order table.
    pub closed spec fn order_capacity(&self, symbol: int) -> nat {
        self.symbols@[symbol].orders.capacity()
    }

    /// Whether some order table cannot double any more.
    pub open spec fn outgrown(&self) -> bool {
        exists|i: int|
            #![trigger self.order_capacity(i)]
            0 <= i < self@.symbols.len() && self.order_capacity(i) * 4 > usize::MAX
    }

    /// Whether applying `event` stays within what the machine can count.
    pub open spec fn admits(&self, event: Event) -> bool {
        &&& self@.admits(event)
        &&& rests(event) && !self@.symbols[event.symbol as int].is_unknown(event)
            ==> self.order_capacity(event.symbol as int) * 4 <= usize::MAX
    }

    #[must_use]
    pub fn new(symbol_count: usize, band: Band) -> (books: Self)
        requires
            band.fits(),
        ensures
            books.wf(),
            books@ == BooksState::empty(symbol_count as nat, band),
            forall|i: int|
                #![trigger books.order_capacity(i)]
                0 <= i < symbol_count ==> books.order_capacity(i) == 2 * FIRST_ORDERS,
    {
        let mut symbols: Vec<SymbolBook> = Vec::new();
        let mut i: usize = 0;
        while i < symbol_count
            invariant
                i <= symbol_count,
                band.fits(),
                symbols@.len() == i,
                forall|j: int|
                    #![trigger symbols@[j]]
                    0 <= j < i ==> {
                        &&& symbols@[j].wf()
                        &&& symbols@[j]@ == BookState::empty(band)
                        &&& symbols@[j].orders.capacity() == 2 * FIRST_ORDERS
                    },
            decreases symbol_count - i,
        {
            symbols.push(SymbolBook::new(band));
            i = i + 1;
        }
        let books = Books { symbols, unknown_orders: 0 };
        assert(books@.symbols =~= BooksState::empty(symbol_count as nat, band).symbols);
        books
    }

    #[must_use]
    pub fn symbol(&self, index: u16) -> (book: &SymbolBook)
        requires
            self.wf(),
            index < self@.symbols.len(),
        ensures
            book.wf(),
            book@ == self@.symbols[index as int],
            book.orders.capacity() == self.order_capacity(index as int),
    {
        &self.symbols[index as usize]
    }

    pub fn apply(&mut self, event: &Event)
        requires
            old(self).wf(),
            old(self).admits(*event),
        ensures
            final(self).wf(),
            final(self)@ == old(self)@.apply(*event),
            forall|i: int|
                #![trigger final(self).order_capacity(i)]
                0 <= i < old(self)@.symbols.len() ==> final(self).order_capacity(i) == (if i
                    == event.symbol {
                    capacity_after(old(self)@.symbols[i], old(self).order_capacity(i), *event)
                } else {
                    old(self).order_capacity(i)
                }),
            !old(self).outgrown() && old(self)@.room_for(0) ==> !final(self).outgrown(),
    {
        let at = event.symbol as usize;
        assert(self@.symbols[at as int] == self.symbols@[at as int]@);
        let known = self.symbols[at].apply(event);
        if !known {
            self.unknown_orders = self.unknown_orders + 1;
        }
        proof {
            assert(self@.symbols =~= old(self)@.apply(*event).symbols);
            if !old(self).outgrown() && old(self)@.room_for(0) {
                let before = *old(self);
                lemma_not_outgrown(before, *self, *event);
            }
        }
    }

    /// Events that named an order nobody knows.
    #[must_use]
    pub fn unknown_orders(&self) -> (count: u64)
        ensures
            count == self@.unknown_orders,
    {
        self.unknown_orders
    }

    /// Applies an event if it is admitted, and says whether it was.
    ///
    /// A refused event changes nothing, but for a replacement whose new order
    /// is refused: its old order is then gone.
    pub fn try_apply(&mut self, event: &Event) -> (applied: bool)
        requires
            old(self).wf(),
        ensures
            final(self).wf(),
            applied == old(self).admits(*event),
            applied ==> final(self)@ == old(self)@.apply(*event),
            !applied ==> !old(self)@.admits(*event) || final(self).outgrown(),
            !applied ==> old(self)@.refuses(*event, final(self)@),
            forall|i: int|
                #![trigger final(self).order_capacity(i)]
                0 <= i < old(self)@.symbols.len() ==> final(self).order_capacity(i) == (if applied
                    && i == event.symbol {
                    capacity_after(old(self)@.symbols[i], old(self).order_capacity(i), *event)
                } else {
                    old(self).order_capacity(i)
                }),
            !old(self).outgrown() && old(self)@.room_for(0) ==> !final(self).outgrown(),
    {
        let at = event.symbol as usize;
        if at >= self.symbols.len() {
            return false;
        }
        assert(self@.symbols[at as int] == self.symbols@[at as int]@);
        if self.unknown_orders == u64::MAX {
            let counted = match event.kind {
                Kind::Execute | Kind::Cancel | Kind::Delete | Kind::Replace =>
                self.symbols[at].orders.get(event.order_id).is_none(),
                Kind::Add | Kind::Level | Kind::Trade => false,
            };
            if counted {
                return false;
            }
        }
        match self.symbols[at].try_apply(event) {
            None => {
                proof {
                    assert(self.order_capacity(at as int) == old(self).order_capacity(at as int));
                    assert forall|i: int|
                        #![trigger self.order_capacity(i)]
                        0 <= i < self@.symbols.len() implies self.order_capacity(i) == old(
                        self,
                    ).order_capacity(i) by {}
                }
                assert(self@.symbols =~= old(self)@.symbols || self@.symbols
                    =~= old(self)@.symbols.update(
                    at as int,
                    old(self)@.symbols[at as int].lift(event.order_id),
                ));
                false
            },
            Some(known) => {
                if !known {
                    self.unknown_orders = self.unknown_orders + 1;
                }
                proof {
                    assert(self@.symbols =~= old(self)@.apply(*event).symbols);
                    if !old(self).outgrown() && old(self)@.room_for(0) {
                        let before = *old(self);
                        lemma_not_outgrown(before, *self, *event);
                    }
                }
                true
            },
        }
    }
}

/// A table doubles only when it is three quarters full, so one with few orders
/// in it can double again.
proof fn lemma_not_outgrown(before: Books, after: Books, event: Event)
    requires
        !before.outgrown(),
        before@.room_for(0),
        after@.symbols.len() == before@.symbols.len(),
        forall|i: int|
            #![trigger after.order_capacity(i)]
            0 <= i < before@.symbols.len() ==> after.order_capacity(i) == (if i == event.symbol {
                capacity_after(before@.symbols[i], before.order_capacity(i), event)
            } else {
                before.order_capacity(i)
            }),
    ensures
        !after.outgrown(),
{
    assert forall|i: int|
        #![trigger after.order_capacity(i)]
        0 <= i < after@.symbols.len() implies after.order_capacity(i) * 4 <= usize::MAX by {
        let book = before@.symbols[i];
        assert(before.order_capacity(i) * 4 <= usize::MAX);
        assert(book.orders.dom().finite());
        assert(book.orders.remove(event.order_id).dom().len() <= book.orders.dom().len());
    }
}

/// Replacing a resting order is deleting it and adding its successor on the
/// same side.
pub proof fn lemma_replace_is_delete_then_add(book: BookState, event: Event)
    requires
        event.kind is Replace,
        !book.is_unknown(event),
    ensures
        ({
            let side = book.orders[event.order_id].side;
            let delete = Event { kind: Kind::Delete, ..event };
            let add = Event { kind: Kind::Add, side, order_id: event.aux, ..event };
            &&& book.apply(event) == book.apply(delete).apply(add)
            &&& book.admits(event) == (book.admits(delete) && book.apply(delete).admits(add))
        }),
{
}

} // verus!
