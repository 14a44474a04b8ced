//! A level is the aggregate of the orders that rest at its price.
//!
//! This holds of order-by-order traffic: every addition is a new order, of a
//! quantity from zero up, and nobody sets a level outright.

use vstd::prelude::*;

use crate::book;
use crate::book::agreement;
use crate::book::ladder::Band;
use crate::book::orders::Order;
use crate::book::reference;
use crate::book::reference::{PlainBook, PlainBooks};
use crate::book::BooksState;
use crate::feed::{Event, Side};

verus! {

/// What an order puts on a level.
pub open spec fn weight(order: Order, side: Side, price: i64) -> int {
    if order.side == side && order.price == price {
        order.qty as int
    } else {
        0
    }
}

/// What all orders together put on a level.
pub open spec fn total(orders: Map<u64, Order>, side: Side, price: i64) -> int
    decreases orders.dom().len(),
    when orders.dom().finite()
{
    if orders.dom().len() == 0 {
        0
    } else {
        let id = orders.dom().choose();
        weight(orders[id], side, price) + total(orders.remove(id), side, price)
    }
}

/// No resting order owes anything, and every level is the total of the orders
/// there.
pub open spec fn backed(plain: PlainBook) -> bool {
    &&& plain.orders.dom().finite()
    &&& forall|id: u64|
        #![trigger plain.orders[id]]
        plain.orders.dom().contains(id) ==> plain.orders[id].qty >= 0
    &&& forall|side: Side, price: i64|
        #![trigger total(plain.orders, side, price)]
        reference::quantity(plain.side(side), price) == total(plain.orders, side, price)
}

/// Order-by-order traffic: a new order has a quantity from zero up and a number
/// of its own, and no level is set outright.
pub open spec fn orderly(orders: Map<u64, Order>, event: Event) -> bool {
    &&& !(event.kind is Level)
    &&& event.kind is Add ==> event.qty >= 0 && !orders.dom().contains(event.order_id)
    &&& event.kind is Replace ==> event.qty >= 0 && !orders.remove(event.order_id).dom().contains(
        event.aux,
    )
}

/// Any order can be counted first.
proof fn lemma_total_remove(orders: Map<u64, Order>, id: u64, side: Side, price: i64)
    requires
        orders.dom().finite(),
        orders.dom().contains(id),
    ensures
        total(orders, side, price) == weight(orders[id], side, price) + total(
            orders.remove(id),
            side,
            price,
        ),
    decreases orders.dom().len(),
{
    let first = orders.dom().choose();
    assert(orders.dom().contains(first));
    assert(orders.dom().len() > 0);
    if first != id {
        assert(orders.remove(first).dom().contains(id));
        assert(orders.remove(id).dom().contains(first));
        lemma_total_remove(orders.remove(first), id, side, price);
        lemma_total_remove(orders.remove(id), first, side, price);
        assert(orders.remove(first).remove(id) =~= orders.remove(id).remove(first));
    }
}

proof fn lemma_total_insert(
    orders: Map<u64, Order>,
    id: u64,
    order: Order,
    side: Side,
    price: i64,
)
    requires
        orders.dom().finite(),
        !orders.dom().contains(id),
    ensures
        total(orders.insert(id, order), side, price) == weight(order, side, price) + total(
            orders,
            side,
            price,
        ),
{
    lemma_total_remove(orders.insert(id, order), id, side, price);
    assert(orders.insert(id, order).remove(id) =~= orders);
}

proof fn lemma_total_nonnegative(orders: Map<u64, Order>, side: Side, price: i64)
    requires
        orders.dom().finite(),
        forall|id: u64|
            #![trigger orders[id]]
            orders.dom().contains(id) ==> orders[id].qty >= 0,
    ensures
        total(orders, side, price) >= 0,
    decreases orders.dom().len(),
{
    if orders.dom().len() > 0 {
        let id = orders.dom().choose();
        assert(orders.dom().contains(id));
        assert(orders[id].qty >= 0);
        let rest = orders.remove(id);
        assert forall|other: u64| #![trigger rest[other]] rest.dom().contains(other) implies rest[other].qty
            >= 0 by {
            assert(orders.dom().contains(other));
            assert(rest[other] == orders[other]);
        }
        lemma_total_nonnegative(rest, side, price);
    }
}

/// A level changed by as much as its orders is still their total.
proof fn lemma_changed(
    plain: PlainBook,
    orders: Map<u64, Order>,
    side: Side,
    price: i64,
    delta: i64,
)
    requires
        backed(plain),
        plain.admits_add(side, price, delta),
        orders.dom().finite(),
        forall|id: u64|
            #![trigger orders[id]]
            orders.dom().contains(id) ==> orders[id].qty >= 0,
        forall|s: Side, p: i64|
            #![trigger total(orders, s, p)]
            total(orders, s, p) == total(plain.orders, s, p) + (if s == side && p == price {
                delta as int
            } else {
                0
            }),
    ensures
        backed(PlainBook { orders, ..plain }.add(side, price, delta)),
{
    let after = PlainBook { orders, ..plain }.add(side, price, delta);
    assert forall|s: Side, p: i64|
        #![trigger total(after.orders, s, p)]
        reference::quantity(after.side(s), p) == total(after.orders, s, p) by {
        lemma_total_nonnegative(orders, s, p);
        assert(reference::quantity(plain.side(s), p) == total(plain.orders, s, p));
    }
}

proof fn lemma_lift_backed(plain: PlainBook, id: u64)
    requires
        backed(plain),
        plain.orders.dom().contains(id),
        plain.admits_lift(id),
    ensures
        backed(plain.lift(id)),
{
    let order = plain.orders[id];
    let orders = plain.orders.remove(id);
    assert forall|s: Side, p: i64|
        #![trigger total(orders, s, p)]
        total(orders, s, p) == total(plain.orders, s, p) + (if s == order.side && p
            == order.price {
            (-order.qty) as i64 as int
        } else {
            0
        }) by {
        lemma_total_remove(plain.orders, id, s, p);
    }
    assert forall|other: u64|
        #![trigger orders[other]]
        orders.dom().contains(other) implies orders[other].qty >= 0 by {
        assert(plain.orders.dom().contains(other));
        assert(orders[other] == plain.orders[other]);
    }
    lemma_changed(plain, orders, order.side, order.price, (-order.qty) as i64);
}

proof fn lemma_rest_backed(plain: PlainBook, id: u64, order: Order)
    requires
        backed(plain),
        !plain.orders.dom().contains(id),
        order.qty >= 0,
        plain.admits_add(order.side, order.price, order.qty),
    ensures
        backed(plain.rest(id, order)),
{
    let orders = plain.orders.insert(id, order);
    assert forall|s: Side, p: i64|
        #![trigger total(orders, s, p)]
        total(orders, s, p) == total(plain.orders, s, p) + (if s == order.side && p
            == order.price {
            order.qty as int
        } else {
            0
        }) by {
        lemma_total_insert(plain.orders, id, order, s, p);
    }
    assert forall|other: u64|
        #![trigger orders[other]]
        orders.dom().contains(other) implies orders[other].qty >= 0 by {
        if other != id {
            assert(orders[other] == plain.orders[other]);
        }
    }
    lemma_changed(plain, orders, order.side, order.price, order.qty);
}

proof fn lemma_reduce_backed(plain: PlainBook, id: u64, qty: i64)
    requires
        backed(plain),
        plain.orders.dom().contains(id),
        ({
            let order = plain.orders[id];
            let taken = book::lesser(qty, order.qty);
            &&& order.qty - taken <= i64::MAX
            &&& taken > i64::MIN
            &&& plain.admits_add(order.side, order.price, (-taken) as i64)
        }),
    ensures
        backed(plain.reduce(id, qty)),
{
    let order = plain.orders[id];
    let taken = book::lesser(qty, order.qty);
    let left = (order.qty - taken) as i64;
    let without = plain.orders.remove(id);
    let orders = if left == 0 {
        without
    } else {
        plain.orders.insert(id, Order { qty: left, ..order })
    };
    assert(without.insert(id, Order { qty: left, ..order }) =~= plain.orders.insert(
        id,
        Order { qty: left, ..order },
    ));
    assert forall|s: Side, p: i64|
        #![trigger total(orders, s, p)]
        total(orders, s, p) == total(plain.orders, s, p) + (if s == order.side && p
            == order.price {
            (-taken) as i64 as int
        } else {
            0
        }) by {
        lemma_total_remove(plain.orders, id, s, p);
        lemma_total_insert(without, id, Order { qty: left, ..order }, s, p);
    }
    assert forall|other: u64|
        #![trigger orders[other]]
        orders.dom().contains(other) implies orders[other].qty >= 0 by {
        assert(plain.orders.dom().contains(other));
        if other != id {
            assert(orders[other] == plain.orders[other]);
        }
    }
    lemma_changed(plain, orders, order.side, order.price, (-taken) as i64);
}

/// Every order-by-order event keeps each level the total of its orders.
pub proof fn lemma_event_backed(plain: PlainBook, event: Event)
    requires
        backed(plain),
        orderly(plain.orders, event),
        plain.admits(event),
    ensures
        backed(plain.apply(event)),
{
    if !plain.is_unknown(event) {
        if event.kind is Add {
            lemma_rest_backed(plain, event.order_id, book::order_of(event, event.side));
        } else if event.kind is Execute || event.kind is Cancel {
            lemma_reduce_backed(plain, event.order_id, event.qty);
        } else if event.kind is Delete {
            lemma_lift_backed(plain, event.order_id);
        } else if event.kind is Replace {
            let side = plain.orders[event.order_id].side;
            lemma_lift_backed(plain, event.order_id);
            let lifted = plain.lift(event.order_id);
            assert(lifted.orders == plain.orders.remove(event.order_id));
            lemma_rest_backed(lifted, event.aux, book::order_of(event, side));
        }
    }
}

/// Every event of the stream is orderly when its turn comes.
pub open spec fn orderly_all(books: PlainBooks, events: Seq<Event>) -> bool
    decreases events.len(),
{
    events.len() == 0 || {
        let before = agreement::run_plain(books, events.drop_last());
        &&& orderly_all(books, events.drop_last())
        &&& orderly(before.symbols[events.last().symbol as int].orders, events.last())
    }
}

proof fn lemma_run_backed(symbol_count: nat, events: Seq<Event>)
    requires
        orderly_all(PlainBooks::empty(symbol_count), events),
        agreement::plain_admits_all(PlainBooks::empty(symbol_count), events),
    ensures
        ({
            let after = agreement::run_plain(PlainBooks::empty(symbol_count), events);
            &&& after.symbols.len() == symbol_count
            &&& forall|i: int|
                #![trigger after.symbols[i]]
                0 <= i < symbol_count ==> backed(after.symbols[i])
        }),
    decreases events.len(),
{
    let fresh = PlainBooks::empty(symbol_count);
    if events.len() == 0 {
        assert forall|i: int| 0 <= i < symbol_count implies backed(#[trigger] fresh.symbols[i]) by {
            assert(fresh.symbols[i] == PlainBook::empty());
        }
    } else {
        lemma_run_backed(symbol_count, events.drop_last());
        let before = agreement::run_plain(fresh, events.drop_last());
        let at = events.last().symbol as int;
        assert(backed(before.symbols[at]));
        lemma_event_backed(before.symbols[at], events.last());
    }
}

/// L2 is L3 added up. Over any orderly stream in which the banded ladders lose
/// nothing, each level of each book is the total of the orders resting there,
/// and where that is nothing there is no level.
pub proof fn lemma_levels_are_totals(symbol_count: nat, band: Band, events: Seq<Event>)
    requires
        band.fits(),
        agreement::admits_all(BooksState::empty(symbol_count, band), events),
        orderly_all(PlainBooks::empty(symbol_count), events),
        agreement::lossless_books(
            BooksState::empty(symbol_count, band),
            agreement::run(BooksState::empty(symbol_count, band), events),
        ),
    ensures
        ({
            let after = agreement::run(BooksState::empty(symbol_count, band), events);
            &&& after.symbols.len() == symbol_count
            &&& forall|i: int, side: Side, price: i64|
                #![trigger after.symbols[i].side(side).quantity(price)]
                0 <= i < symbol_count ==> after.symbols[i].side(side).quantity(price) == total(
                    after.symbols[i].orders,
                    side,
                    price,
                ) && (after.symbols[i].side(side).levels.dom().contains(price) <==> total(
                    after.symbols[i].orders,
                    side,
                    price,
                ) != 0)
        }),
{
    let books = BooksState::empty(symbol_count, band);
    let plain = PlainBooks::empty(symbol_count);
    agreement::lemma_fresh_books_agree(symbol_count, band);
    agreement::lemma_streams_agree(books, plain, events);
    agreement::lemma_run_valid(books, events);
    lemma_run_backed(symbol_count, events);
    let after = agreement::run(books, events);
    let plain_after = agreement::run_plain(plain, events);
    assert forall|i: int, side: Side, price: i64|
        #![trigger after.symbols[i].side(side).quantity(price)]
        0 <= i < symbol_count implies after.symbols[i].side(side).quantity(price) == total(
        after.symbols[i].orders,
        side,
        price,
    ) && (after.symbols[i].side(side).levels.dom().contains(price) <==> total(
        after.symbols[i].orders,
        side,
        price,
    ) != 0) by {
        assert(agreement::valid_book(after.symbols[i]));
        assert(after.symbols[i].side(side).valid());
        assert(agreement::agrees(after.symbols[i], plain_after.symbols[i]));
        assert(backed(plain_after.symbols[i]));
        assert(reference::quantity(plain_after.symbols[i].side(side), price) == total(
            plain_after.symbols[i].orders,
            side,
            price,
        ));
    }
}

} // verus!
