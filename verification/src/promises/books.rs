//! The books: what each kind of event does to the orders, to the levels and to
//! everything it does not speak of, for the books on ladders and for the books
//! on maps alike.

use vstd::prelude::*;

use crate::book::ladder;
use crate::book::ladder::{Band, LadderState};
use crate::book::orders::Order;
use crate::book::reference::{PlainBook, PlainBooks};
use crate::book::{BookState, BooksState};
use crate::feed::{Event, Kind, Side};
use crate::promises::ladder as standing;
use crate::promises::ladder::{not_negative, ordinary, ordinary_price, resting, takes, updated};

verus! {

// ------------------------------------------------------------------------ orders

/// Whether the event speaks of an order that has to be resting.
pub open spec fn speaks_of_an_order(event: Event) -> bool {
    event.kind == Kind::Execute || event.kind == Kind::Cancel || event.kind == Kind::Delete
        || event.kind == Kind::Replace
}

/// Whether the event takes quantity off an order.
pub open spec fn takes_off(event: Event) -> bool {
    event.kind == Kind::Execute || event.kind == Kind::Cancel
}

/// What rests of an order once `qty` is off it, where something does.
pub open spec fn less(order: Order, qty: i64) -> Order {
    Order {
        symbol: order.symbol,
        side: order.side,
        price: order.price,
        qty: (order.qty - qty) as i64,
    }
}

/// Whether the orders are what the event makes of them.
pub open spec fn orders_follow(
    before: Map<u64, Order>,
    after: Map<u64, Order>,
    event: Event,
) -> bool {
    let id = event.order_id;
    let order = before[id];
    &&& event.kind == Kind::Add ==> after == before.insert(
        id,
        Order { symbol: event.symbol, side: event.side, price: event.price, qty: event.qty },
    )
    &&& takes_off(event) && event.qty < order.qty ==> after == before.insert(
        id,
        less(order, event.qty),
    )
    &&& takes_off(event) && event.qty >= order.qty ==> after == before.remove(id)
    &&& event.kind == Kind::Delete ==> after == before.remove(id)
    &&& event.kind == Kind::Replace ==> after == before.remove(id).insert(
        event.aux,
        Order { symbol: event.symbol, side: order.side, price: event.price, qty: event.qty },
    )
    &&& event.kind == Kind::Level || event.kind == Kind::Trade ==> after == before
}

// ------------------------------------------------------------------- plain books

/// Whether `after` is `before` with `qty` at `price`, none meaning no level.
pub open spec fn level_is(
    before: Map<i64, i64>,
    after: Map<i64, i64>,
    price: i64,
    qty: int,
) -> bool {
    &&& resting(after, price) == qty
    &&& after.contains_key(price) <==> qty > 0
    &&& forall|other: i64|
        #![trigger after.contains_key(other)]
        other != price ==> {
            &&& after.contains_key(other) <==> before.contains_key(other)
            &&& resting(after, other) == resting(before, other)
        }
}

/// Whether `after` is `before` with `delta` more at `price`.
pub open spec fn level_gains(
    before: Map<i64, i64>,
    after: Map<i64, i64>,
    price: i64,
    delta: int,
) -> bool {
    level_is(before, after, price, not_negative(resting(before, price) + delta))
}

/// One side's levels.
pub open spec fn plain_side(book: PlainBook, side: Side) -> Map<i64, i64> {
    if side == Side::Bid {
        book.bids
    } else {
        book.asks
    }
}

/// The other side's levels.
pub open spec fn plain_other_side(book: PlainBook, side: Side) -> Map<i64, i64> {
    if side == Side::Bid {
        book.asks
    } else {
        book.bids
    }
}

/// Whether one side gained `delta` at `price`, and the other stayed.
pub open spec fn plain_gains(
    before: PlainBook,
    after: PlainBook,
    side: Side,
    price: i64,
    delta: int,
) -> bool {
    &&& level_gains(plain_side(before, side), plain_side(after, side), price, delta)
    &&& plain_other_side(after, side) == plain_other_side(before, side)
}

proof fn lemma_plain_add(book: PlainBook, side: Side, price: i64, delta: i64)
    requires
        resting(plain_side(book, side), price) + delta <= i64::MAX,
    ensures
        plain_gains(book, book.add(side, price, delta), side, price, delta as int),
        book.add(side, price, delta).orders == book.orders,
{
}

/// An event about a resting order, or about none, in the books on maps: the
/// orders follow it, and exactly the quantity it speaks of is on or off the level
/// it speaks of. An execution or a cancel of less than what rests takes exactly
/// that much; one of as much or more takes the order away.
#[verifier::rlimit(60)]
#[verifier::spinoff_prover]
pub proof fn lemma_maps_follow(books: PlainBooks, event: Event)
    requires
        books.admits(event),
        speaks_of_an_order(event) ==> books.symbols[event.symbol as int].orders.contains_key(
            event.order_id,
        ),
    ensures
        ({
            let at = event.symbol as int;
            let before = books.symbols[at];
            let after = books.apply(event).symbols[at];
            let order = before.orders[event.order_id];
            &&& books.apply(event).unknown_orders == books.unknown_orders
            &&& books.apply(event).symbols == books.symbols.update(at, after)
            &&& orders_follow(before.orders, after.orders, event)
            &&& event.kind == Kind::Add ==> plain_gains(
                before,
                after,
                event.side,
                event.price,
                event.qty as int,
            )
            &&& takes_off(event) && event.qty < order.qty ==> plain_gains(
                before,
                after,
                order.side,
                order.price,
                -event.qty,
            )
            &&& takes_off(event) && event.qty >= order.qty || event.kind == Kind::Delete
                ==> plain_gains(before, after, order.side, order.price, -order.qty)
            &&& event.kind == Kind::Replace ==> exists|between: PlainBook|
                #![trigger plain_gains(before, between, order.side, order.price, -order.qty)]
                plain_gains(before, between, order.side, order.price, -order.qty) && plain_gains(
                    between,
                    after,
                    order.side,
                    event.price,
                    event.qty as int,
                )
            &&& event.kind == Kind::Level ==> {
                &&& level_is(
                    plain_side(before, event.side),
                    plain_side(after, event.side),
                    event.price,
                    not_negative(event.qty as int),
                )
                &&& plain_other_side(after, event.side) == plain_other_side(before, event.side)
            }
            &&& event.kind == Kind::Trade ==> after == before
        }),
{
    let at = event.symbol as int;
    let before = books.symbols[at];
    let after = books.apply(event).symbols[at];
    let order = before.orders[event.order_id];
    match event.kind {
        Kind::Add => {
            lemma_plain_add(before, event.side, event.price, event.qty);
        },
        Kind::Execute | Kind::Cancel => {
            if event.qty < order.qty {
                lemma_plain_add(before, order.side, order.price, (-event.qty) as i64);
            } else {
                lemma_plain_add(before, order.side, order.price, (-order.qty) as i64);
            }
        },
        Kind::Delete => {
            lemma_plain_add(before, order.side, order.price, (-order.qty) as i64);
        },
        Kind::Replace => {
            let between = before.lift(event.order_id);
            lemma_plain_add(before, order.side, order.price, (-order.qty) as i64);
            lemma_plain_add(between, order.side, event.price, event.qty);
            assert(plain_gains(before, between, order.side, order.price, -order.qty));
        },
        Kind::Level => {},
        Kind::Trade => {},
    }
    assert(books.apply(event).symbols =~= books.symbols.update(at, after));
}

/// An event about an order that does not rest is counted, and nothing else
/// changes, in the books on maps and in the books on ladders.
pub proof fn lemma_unknown_orders_are_counted(
    plain: PlainBooks,
    books: BooksState,
    event: Event,
)
    requires
        speaks_of_an_order(event),
    ensures
        !plain.symbols[event.symbol as int].orders.contains_key(event.order_id) ==> plain.apply(
            event,
        ) == (PlainBooks { unknown_orders: plain.unknown_orders + 1, ..plain }),
        !books.symbols[event.symbol as int].orders.contains_key(event.order_id) ==> books.apply(
            event,
        ) == (BooksState { unknown_orders: books.unknown_orders + 1, ..books }),
{
}

/// The books on maps take every event whose sums fit the range of a quantity.
#[verifier::rlimit(30)]
pub proof fn lemma_maps_take_ordinary_events(books: PlainBooks, event: Event)
    requires
        event.symbol < books.symbols.len(),
        books.unknown_orders < u64::MAX,
        event.qty >= 0,
        ({
            let book = books.symbols[event.symbol as int];
            let order = book.orders[event.order_id];
            &&& resting(plain_side(book, event.side), event.price) + event.qty <= i64::MAX
            &&& forall|side: Side, price: i64|
                #![trigger resting(plain_side(book, side), price)]
                resting(plain_side(book, side), price) >= 0
            &&& speaks_of_an_order(event) && book.orders.contains_key(event.order_id) ==> {
                &&& order.qty >= 0
                &&& resting(plain_side(book, order.side), event.price) + event.qty <= i64::MAX
            }
        }),
    ensures
        books.admits(event),
{
    let book = books.symbols[event.symbol as int];
    let order = book.orders[event.order_id];
    assert(resting(plain_side(book, event.side), event.price) >= 0);
    assert(resting(plain_side(book, order.side), order.price) >= 0);
    assert(resting(plain_side(book, order.side), event.price) >= 0);
}

// ------------------------------------------------------------------ ladder books

/// One side's ladder.
pub open spec fn on_side(book: BookState, side: Side) -> LadderState {
    if side == Side::Bid {
        book.bids
    } else {
        book.asks
    }
}

/// The other side's ladder.
pub open spec fn on_other_side(book: BookState, side: Side) -> LadderState {
    if side == Side::Bid {
        book.asks
    } else {
        book.bids
    }
}

/// Whether one side gained `delta` at `price`, where that is on its grid, and
/// the other stayed. Off the grid only the count of such prices moves.
pub open spec fn gains(
    before: BookState,
    after: BookState,
    side: Side,
    price: i64,
    delta: int,
) -> bool {
    let was = on_side(before, side);
    let is = on_side(after, side);
    &&& on_other_side(after, side) == on_other_side(before, side)
    &&& takes(was, price as int) ==> updated(
        was,
        is,
        price,
        not_negative(resting(was.levels, price) + delta),
    )
    &&& !takes(was, price as int) ==> is == (LadderState {
        off_grid: was.off_grid + 1,
        ..was
    })
}

/// Whether both ladders hold what a ladder keeps.
pub open spec fn sound(book: BookState) -> bool {
    book.bids.valid() && book.asks.valid()
}

proof fn lemma_add(book: BookState, side: Side, price: i64, delta: i64)
    requires
        sound(book),
        book.side(side).admits_add(price, delta),
    ensures
        gains(book, book.add(side, price, delta), side, price, delta as int),
        book.add(side, price, delta).orders == book.orders,
        sound(book.add(side, price, delta)),
{
    let was = on_side(book, side);
    assert(was == book.side(side));
    if takes(was, price as int) {
        standing::lemma_reached(was, price);
        standing::lemma_a_level_is_added_to(was, price, delta);
    }
    ladder::lemma_put_valid(
        was,
        price,
        ladder::at_least_zero(was.reaching(price as int).quantity(price) + delta),
    );
}

/// An event about a resting order, or about none, in the books on ladders: the
/// orders follow it, and exactly the quantity it speaks of is on or off the level
/// it speaks of. An execution or a cancel of less than what rests takes exactly
/// that much; one of as much or more takes the order away.
#[verifier::rlimit(60)]
#[verifier::spinoff_prover]
pub proof fn lemma_ladders_follow(books: BooksState, event: Event)
    requires
        books.admits(event),
        sound(books.symbols[event.symbol as int]),
        speaks_of_an_order(event) ==> books.symbols[event.symbol as int].orders.contains_key(
            event.order_id,
        ),
    ensures
        ({
            let at = event.symbol as int;
            let before = books.symbols[at];
            let after = books.apply(event).symbols[at];
            let order = before.orders[event.order_id];
            &&& books.apply(event).unknown_orders == books.unknown_orders
            &&& books.apply(event).symbols == books.symbols.update(at, after)
            &&& orders_follow(before.orders, after.orders, event)
            &&& event.kind == Kind::Add ==> gains(
                before,
                after,
                event.side,
                event.price,
                event.qty as int,
            )
            &&& takes_off(event) && event.qty < order.qty ==> gains(
                before,
                after,
                order.side,
                order.price,
                -event.qty,
            )
            &&& takes_off(event) && event.qty >= order.qty || event.kind == Kind::Delete ==> gains(
                before,
                after,
                order.side,
                order.price,
                -order.qty,
            )
            &&& event.kind == Kind::Replace ==> exists|between: BookState|
                #![trigger gains(before, between, order.side, order.price, -order.qty)]
                gains(before, between, order.side, order.price, -order.qty) && gains(
                    between,
                    after,
                    order.side,
                    event.price,
                    event.qty as int,
                )
            &&& event.kind == Kind::Level ==> {
                let was = on_side(before, event.side);
                let is = on_side(after, event.side);
                &&& on_other_side(after, event.side) == on_other_side(before, event.side)
                &&& takes(was, event.price as int) ==> updated(
                    was,
                    is,
                    event.price,
                    not_negative(event.qty as int),
                )
                &&& !takes(was, event.price as int) ==> is == (LadderState {
                    off_grid: was.off_grid + 1,
                    ..was
                })
            }
            &&& event.kind == Kind::Trade ==> after == before
        }),
{
    let at = event.symbol as int;
    let before = books.symbols[at];
    let after = books.apply(event).symbols[at];
    let order = before.orders[event.order_id];
    match event.kind {
        Kind::Add => {
            lemma_add(before, event.side, event.price, event.qty);
        },
        Kind::Execute | Kind::Cancel => {
            if event.qty < order.qty {
                lemma_add(before, order.side, order.price, (-event.qty) as i64);
            } else {
                lemma_add(before, order.side, order.price, (-order.qty) as i64);
            }
        },
        Kind::Delete => {
            lemma_add(before, order.side, order.price, (-order.qty) as i64);
        },
        Kind::Replace => {
            let between = before.lift(event.order_id);
            lemma_add(before, order.side, order.price, (-order.qty) as i64);
            lemma_add(between, order.side, event.price, event.qty);
            assert(gains(before, between, order.side, order.price, -order.qty));
        },
        Kind::Level => {
            let was = on_side(before, event.side);
            if takes(was, event.price as int) {
                standing::lemma_a_level_is_set(was, event.price, event.qty);
            }
        },
        Kind::Trade => {},
    }
    assert(books.apply(event).symbols =~= books.symbols.update(at, after));
}

/// The books on ladders take every event at a price well inside the range of a
/// price, whose sums fit the range of a quantity.
#[verifier::rlimit(60)]
#[verifier::spinoff_prover]
pub proof fn lemma_ladders_take_ordinary_events(books: BooksState, event: Event)
    requires
        event.symbol < books.symbols.len(),
        books.unknown_orders < u64::MAX,
        event.qty >= 0,
        ordinary_price(event.price as int),
        event.kind == Kind::Add ==> event.order_id != 0,
        event.kind == Kind::Replace ==> event.aux != 0,
        ({
            let book = books.symbols[event.symbol as int];
            let order = book.orders[event.order_id];
            &&& ordinary(book.bids, 2)
            &&& ordinary(book.asks, 2)
            &&& resting(on_side(book, event.side).levels, event.price) + event.qty <= i64::MAX
            &&& speaks_of_an_order(event) && book.orders.contains_key(event.order_id) ==> {
                &&& order.qty >= 0
                &&& ordinary_price(order.price as int)
                &&& resting(on_side(book, order.side).levels, event.price) + event.qty <= i64::MAX
            }
        }),
    ensures
        books.admits(event),
{
    let book = books.symbols[event.symbol as int];
    let order = book.orders[event.order_id];
    let side = on_side(book, event.side);
    standing::lemma_ordinary_prices_are_taken(side, event.price as int);
    if takes(side, event.price as int) {
        standing::lemma_a_level_is_added_to(side, event.price, event.qty);
    }
    if speaks_of_an_order(event) && book.orders.contains_key(event.order_id) {
        let own = on_side(book, order.side);
        standing::lemma_ordinary_prices_are_taken(own, order.price as int);
        let taken = if takes_off(event) && event.qty < order.qty {
            (-event.qty) as i64
        } else {
            (-order.qty) as i64
        };
        if takes(own, order.price as int) {
            assert(resting(own.levels, order.price) <= i64::MAX);
            standing::lemma_a_level_is_added_to(own, order.price, taken);
        }
        if event.kind == Kind::Replace {
            let lifted = own.add(order.price, taken);
            standing::lemma_ordinary_stays(own, order.price, taken);
            standing::lemma_ordinary_prices_are_taken(lifted, event.price as int);
            if takes(own, order.price as int) {
                if event.price != order.price {
                    assert(lifted.levels.contains_key(event.price) ==> own.levels.contains_key(
                        event.price,
                    ));
                }
                assert(resting(lifted.levels, event.price) <= resting(own.levels, event.price));
            }
            if takes(lifted, event.price as int) {
                standing::lemma_a_level_is_added_to(lifted, event.price, event.qty);
            }
        }
    }
}

/// New books hold nothing, count nothing, and have their windows nowhere yet.
#[verifier::rlimit(30)]
pub proof fn lemma_new_books(symbol_count: nat, band: Band, i: int)
    requires
        0 <= i < symbol_count,
    ensures
        ({
            let books = BooksState::empty(symbol_count, band);
            let book = books.symbols[i];
            &&& books.symbols.len() == symbol_count
            &&& books.unknown_orders == 0
            &&& book.orders == Map::<u64, Order>::empty()
            &&& book.bids == (LadderState {
                base: -0x8000_0000_0000_0000,
                tick: band.tick as int,
                ticks: band.ticks as int,
                descending: false,
                levels: Map::empty(),
                rebases: 0,
                off_grid: 0,
                evicted: 0,
            })
            &&& book.asks == (LadderState { descending: true, ..book.bids })
        }),
        ({
            let books = PlainBooks::empty(symbol_count);
            let book = books.symbols[i];
            &&& books.symbols.len() == symbol_count
            &&& books.unknown_orders == 0
            &&& book.orders == Map::<u64, Order>::empty()
            &&& book.bids == Map::<i64, i64>::empty()
            &&& book.asks == Map::<i64, i64>::empty()
        }),
{
}

/// A refused event changes nothing, but for a replacement whose new order is
/// refused: its old order is then gone, with its quantity, and nothing else.
pub proof fn lemma_what_a_refusal_leaves(books: BooksState, event: Event, after: BooksState)
    requires
        books.refuses(event, after),
        after != books,
        sound(books.symbols[event.symbol as int]),
    ensures
        event.kind == Kind::Replace,
        event.symbol < books.symbols.len(),
        ({
            let at = event.symbol as int;
            let was = books.symbols[at];
            let is = after.symbols[at];
            let order = was.orders[event.order_id];
            &&& after.unknown_orders == books.unknown_orders
            &&& after.symbols == books.symbols.update(at, is)
            &&& is.orders == was.orders.remove(event.order_id)
            &&& gains(was, is, order.side, order.price, -order.qty)
        }),
{
    let at = event.symbol as int;
    let was = books.symbols[at];
    let order = was.orders[event.order_id];
    lemma_add(was, order.side, order.price, (-order.qty) as i64);
    assert(after.symbols =~= books.symbols.update(at, after.symbols[at]));
}

} // verus!
