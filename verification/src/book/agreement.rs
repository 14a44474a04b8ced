//! The banded books and the plain ones agree: as long as no level is evicted
//! and no price is off the grid, they hold the same orders and the same levels,
//! and so the same touch.

use vstd::prelude::*;

use crate::book::ladder;
use crate::book::ladder::{Band, LadderState};
use crate::book::reference;
use crate::book::reference::{PlainBook, PlainBooks};
use crate::book::{BookState, BooksState};
use crate::feed::{Event, Side};

verus! {

/// Nothing was lost from one state of a ladder to another.
pub open spec fn lossless(before: LadderState, after: LadderState) -> bool {
    &&& after.evicted == before.evicted
    &&& after.off_grid == before.off_grid
}

pub open spec fn lossless_book(before: BookState, after: BookState) -> bool {
    &&& lossless(before.bids, after.bids)
    &&& lossless(before.asks, after.asks)
}

pub open spec fn lossless_books(before: BooksState, after: BooksState) -> bool {
    forall|i: int|
        #![trigger after.symbols[i]]
        0 <= i < after.symbols.len() ==> lossless_book(before.symbols[i], after.symbols[i])
}

/// The same orders, the same levels.
pub open spec fn agrees(book: BookState, plain: PlainBook) -> bool {
    &&& book.orders == plain.orders
    &&& book.bids.levels == plain.bids
    &&& book.asks.levels == plain.asks
}

pub open spec fn books_agree(books: BooksState, plain: PlainBooks) -> bool {
    &&& books.unknown_orders == plain.unknown_orders
    &&& books.symbols.len() == plain.symbols.len()
    &&& forall|i: int|
        #![trigger books.symbols[i]]
        0 <= i < books.symbols.len() ==> agrees(books.symbols[i], plain.symbols[i])
}

pub open spec fn valid_book(book: BookState) -> bool {
    &&& book.bids.valid()
    &&& book.asks.valid()
}

pub open spec fn valid_books(books: BooksState) -> bool {
    forall|i: int|
        #![trigger books.symbols[i]]
        0 <= i < books.symbols.len() ==> valid_book(books.symbols[i])
}

/// The books after a stream of events.
pub open spec fn run(books: BooksState, events: Seq<Event>) -> BooksState
    decreases events.len(),
{
    if events.len() == 0 {
        books
    } else {
        run(books, events.drop_last()).apply(events.last())
    }
}

pub open spec fn run_plain(books: PlainBooks, events: Seq<Event>) -> PlainBooks
    decreases events.len(),
{
    if events.len() == 0 {
        books
    } else {
        run_plain(books, events.drop_last()).apply(events.last())
    }
}

/// Every event of the stream is admitted when its turn comes.
pub open spec fn admits_all(books: BooksState, events: Seq<Event>) -> bool
    decreases events.len(),
{
    events.len() == 0 || {
        &&& admits_all(books, events.drop_last())
        &&& run(books, events.drop_last()).admits(events.last())
    }
}

pub open spec fn plain_admits_all(books: PlainBooks, events: Seq<Event>) -> bool
    decreases events.len(),
{
    events.len() == 0 || {
        &&& plain_admits_all(books, events.drop_last())
        &&& run_plain(books, events.drop_last()).admits(events.last())
    }
}

// ---------------------------------------------------------------- one level

proof fn lemma_add(book: BookState, plain: PlainBook, side: Side, price: i64, delta: i64)
    requires
        valid_book(book),
        book.side(side).admits_add(price, delta),
    ensures
        valid_book(book.add(side, price, delta)),
        book.add(side, price, delta).bids.evicted >= book.bids.evicted,
        book.add(side, price, delta).bids.off_grid >= book.bids.off_grid,
        book.add(side, price, delta).asks.evicted >= book.asks.evicted,
        book.add(side, price, delta).asks.off_grid >= book.asks.off_grid,
        book.add(side, price, delta).orders == book.orders,
        agrees(book, plain) && lossless_book(book, book.add(side, price, delta)) ==> {
            &&& agrees(book.add(side, price, delta), plain.add(side, price, delta))
            &&& plain.admits_add(side, price, delta)
        },
{
    let state = book.side(side);
    let qty = ladder::at_least_zero(state.reaching(price as int).quantity(price) + delta);
    ladder::lemma_put_valid(state, price, qty);
    if agrees(book, plain) && lossless_book(book, book.add(side, price, delta)) {
        ladder::lemma_nothing_evicted(state, price, qty);
        assert(state.levels == plain.side(side));
        assert(state.quantity(price) == reference::quantity(plain.side(side), price));
        assert(state.reaching(price as int).on_grid(price as int));
        assert(state.quantity(price) >= 0) by {
            if state.levels.dom().contains(price) {
                assert(state.levels[price] > 0);
            }
        }
    }
}

// ---------------------------------------------------------------- one event

/// One event keeps two books in agreement, unless it makes a ladder lose
/// something.
pub proof fn lemma_event_agrees(book: BookState, plain: PlainBook, event: Event)
    requires
        valid_book(book),
        book.admits(event),
    ensures
        valid_book(book.apply(event)),
        book.apply(event).bids.evicted >= book.bids.evicted,
        book.apply(event).bids.off_grid >= book.bids.off_grid,
        book.apply(event).asks.evicted >= book.asks.evicted,
        book.apply(event).asks.off_grid >= book.asks.off_grid,
        agrees(book, plain) && lossless_book(book, book.apply(event)) ==> {
            &&& agrees(book.apply(event), plain.apply(event))
            &&& plain.admits(event)
            &&& plain.is_unknown(event) == book.is_unknown(event)
        },
{
    let id = event.order_id;
    if book.is_unknown(event) {
    } else if event.kind is Add {
        let order = crate::book::order_of(event, event.side);
        let held = BookState { orders: book.orders.insert(id, order), ..book };
        let plain_held = PlainBook { orders: plain.orders.insert(id, order), ..plain };
        lemma_add(held, plain_held, event.side, event.price, event.qty);
    } else if event.kind is Execute || event.kind is Cancel {
        let order = book.orders[id];
        let taken = crate::book::lesser(event.qty, order.qty);
        let orders = book.reduce(id, event.qty).orders;
        let held = BookState { orders, ..book };
        let plain_held = PlainBook { orders, ..plain };
        assert(book.reduce(id, event.qty) == held.add(order.side, order.price, (-taken) as i64));
        lemma_add(held, plain_held, order.side, order.price, (-taken) as i64);
    } else if event.kind is Delete {
        lemma_lift(book, plain, id);
    } else if event.kind is Replace {
        let side = book.orders[id].side;
        let order = crate::book::order_of(event, side);
        lemma_lift(book, plain, id);
        let lifted = book.lift(id);
        let plain_lifted = plain.lift(id);
        let held = BookState { orders: lifted.orders.insert(event.aux, order), ..lifted };
        let plain_held = PlainBook {
            orders: plain_lifted.orders.insert(event.aux, order),
            ..plain_lifted
        };
        lemma_add(held, plain_held, side, event.price, event.qty);
    } else if event.kind is Level {
        let state = book.side(event.side);
        let qty = ladder::at_least_zero(event.qty as int);
        ladder::lemma_put_valid(state, event.price, qty);
        if lossless_book(book, book.apply(event)) {
            ladder::lemma_nothing_evicted(state, event.price, qty);
        }
    }
}

proof fn lemma_lift(book: BookState, plain: PlainBook, id: u64)
    requires
        valid_book(book),
        book.admits_lift(id),
    ensures
        valid_book(book.lift(id)),
        book.lift(id).bids.evicted >= book.bids.evicted,
        book.lift(id).bids.off_grid >= book.bids.off_grid,
        book.lift(id).asks.evicted >= book.asks.evicted,
        book.lift(id).asks.off_grid >= book.asks.off_grid,
        agrees(book, plain) && lossless_book(book, book.lift(id)) ==> {
            &&& agrees(book.lift(id), plain.lift(id))
            &&& plain.admits_lift(id)
        },
{
    let order = book.orders[id];
    let held = BookState { orders: book.orders.remove(id), ..book };
    let plain_held = PlainBook { orders: plain.orders.remove(id), ..plain };
    lemma_add(held, plain_held, order.side, order.price, (-order.qty) as i64);
}

// -------------------------------------------------------------- whole streams

/// Validity and the number of symbols are kept, and the loss counters only
/// climb.
pub proof fn lemma_run_valid(books: BooksState, events: Seq<Event>)
    requires
        valid_books(books),
        admits_all(books, events),
    ensures
        valid_books(run(books, events)),
        run(books, events).symbols.len() == books.symbols.len(),
        forall|i: int|
            #![trigger run(books, events).symbols[i]]
            0 <= i < books.symbols.len() ==> {
                &&& run(books, events).symbols[i].bids.evicted >= books.symbols[i].bids.evicted
                &&& run(books, events).symbols[i].bids.off_grid >= books.symbols[i].bids.off_grid
                &&& run(books, events).symbols[i].asks.evicted >= books.symbols[i].asks.evicted
                &&& run(books, events).symbols[i].asks.off_grid >= books.symbols[i].asks.off_grid
            },
    decreases events.len(),
{
    if events.len() > 0 {
        let event = events.last();
        lemma_run_valid(books, events.drop_last());
        let before = run(books, events.drop_last());
        let at = event.symbol as int;
        lemma_event_agrees(before.symbols[at], PlainBook::empty(), event);
        let after = run(books, events);
        assert forall|i: int| 0 <= i < books.symbols.len() implies valid_book(
            #[trigger] after.symbols[i],
        ) && after.symbols[i].bids.evicted >= before.symbols[i].bids.evicted
            && after.symbols[i].bids.off_grid >= before.symbols[i].bids.off_grid
            && after.symbols[i].asks.evicted >= before.symbols[i].asks.evicted
            && after.symbols[i].asks.off_grid >= before.symbols[i].asks.off_grid by {
            assert(valid_book(before.symbols[i]));
        }
    }
}

/// Books start out valid and agreeing, with no touch on either side.
pub proof fn lemma_fresh_books_agree(symbol_count: nat, band: Band)
    requires
        band.fits(),
    ensures
        valid_books(BooksState::empty(symbol_count, band)),
        books_agree(BooksState::empty(symbol_count, band), PlainBooks::empty(symbol_count)),
{
    ladder::lemma_empty_valid(band, false);
    ladder::lemma_empty_valid(band, true);
}

/// Books that agree go on agreeing over any stream of events in which the
/// banded ladders lose nothing, and the plain ones admit whatever they admit.
pub proof fn lemma_streams_agree(books: BooksState, plain: PlainBooks, events: Seq<Event>)
    requires
        valid_books(books),
        books_agree(books, plain),
        admits_all(books, events),
        lossless_books(books, run(books, events)),
    ensures
        books_agree(run(books, events), run_plain(plain, events)),
        plain_admits_all(plain, events),
    decreases events.len(),
{
    if events.len() > 0 {
        let event = events.last();
        let at = event.symbol as int;
        let before = run(books, events.drop_last());
        let after = run(books, events);
        lemma_run_valid(books, events.drop_last());
        lemma_run_valid(books, events);
        assert(valid_book(before.symbols[at]));
        lemma_event_agrees(before.symbols[at], run_plain(plain, events.drop_last()).symbols[at], event);
        assert forall|i: int| 0 <= i < before.symbols.len() implies lossless_book(
            books.symbols[i],
            #[trigger] before.symbols[i],
        ) && lossless_book(before.symbols[i], after.symbols[i]) by {
            assert(lossless_book(books.symbols[i], after.symbols[i]));
            if i == at {
            } else {
                assert(after.symbols[i] == before.symbols[i]);
            }
        }
        lemma_streams_agree(books, plain, events.drop_last());
        let plain_before = run_plain(plain, events.drop_last());
        assert(agrees(before.symbols[at], plain_before.symbols[at]));
        assert(lossless_book(before.symbols[at], after.symbols[at]));
        lemma_event_agrees(before.symbols[at], plain_before.symbols[at], event);
        let plain_after = run_plain(plain, events);
        assert forall|i: int| 0 <= i < after.symbols.len() implies agrees(
            #[trigger] after.symbols[i],
            plain_after.symbols[i],
        ) by {
            assert(agrees(before.symbols[i], plain_before.symbols[i]));
        }
    }
}

} // verus!
