//! One side of a book: where the window goes, what it keeps, and what an update
//! leaves at each price.

use vstd::arithmetic::power2;
use vstd::prelude::*;

use crate::book::ladder;
use crate::book::ladder::{Band, Ladder, LadderState};
use crate::book::reference::ReferenceSymbol;
use crate::powers;

verus! {

/// The quantity at a price.
pub open spec fn resting(levels: Map<i64, i64>, price: i64) -> int {
    if levels.contains_key(price) {
        levels[price] as int
    } else {
        0
    }
}

/// `n`, or zero where it is negative.
pub open spec fn not_negative(n: int) -> int {
    if n < 0 {
        0
    } else {
        n
    }
}

/// Whether `price` is on the grid: the first price lays it.
pub open spec fn takes(side: LadderState, price: int) -> bool {
    side.base == i64::MIN || (price - side.base) % side.tick == 0
}

/// Whether the window spans `price`.
pub open spec fn spans(side: LadderState, price: int) -> bool {
    side.base <= price && price < side.base + side.ticks * side.tick
}

/// Whether `after` is `side` with its window where `price` puts it. A price
/// inside moves nothing. The first price is half a window above the lowest.
/// After that a price below the window is a quarter window above the lowest,
/// and a price above it a quarter window below the end.
pub open spec fn follows(side: LadderState, after: LadderState, price: int) -> bool {
    let quarter = (side.ticks / 4) * side.tick;
    if spans(side, price) {
        after.base == side.base && after.rebases == side.rebases
    } else {
        &&& after.rebases == side.rebases + 1
        &&& side.base == i64::MIN ==> after.base == price - (side.ticks / 2) * side.tick
        &&& side.base != i64::MIN && price < side.base ==> after.base == price - quarter
        &&& side.base != i64::MIN && price >= side.base ==> after.base + side.ticks * side.tick
            == price + quarter
    }
}

/// Whether the grid and the counters of `after` are those of `side`, but for
/// the window's moves and for what left it.
pub open spec fn same_grid(side: LadderState, after: LadderState) -> bool {
    &&& after.tick == side.tick
    &&& after.ticks == side.ticks
    &&& after.descending == side.descending
    &&& after.off_grid == side.off_grid
}

/// Whether the window of `after` keeps what `side` held elsewhere than at
/// `price`, and nothing more.
pub open spec fn keeps_elsewhere(side: LadderState, after: LadderState, price: i64) -> bool {
    forall|other: i64|
        #![trigger after.levels.contains_key(other)]
        other != price ==> resting(after.levels, other) == (if spans(after, other as int) {
            resting(side.levels, other)
        } else {
            0
        }) && (after.levels.contains_key(other) <==> side.levels.contains_key(other) && spans(
            after,
            other as int,
        ))
}

/// The levels that the window of `after` no longer spans.
pub open spec fn left_behind(side: LadderState, after: LadderState) -> Set<i64> {
    side.levels.dom().filter(|price: i64| !spans(after, price as int))
}

/// Whether `after` is `side` with `qty` at `price`, none meaning no level.
pub open spec fn updated(side: LadderState, after: LadderState, price: i64, qty: int) -> bool {
    &&& same_grid(side, after)
    &&& follows(side, after, price as int)
    &&& spans(after, price as int)
    &&& keeps_elsewhere(side, after, price)
    &&& resting(after.levels, price) == qty
    &&& after.levels.contains_key(price) <==> qty > 0
    &&& after.evicted == side.evicted + left_behind(side, after).len()
}

/// Where a price outside the window puts its lowest price.
#[verifier::rlimit(30)]
proof fn lemma_new_base(side: LadderState, price: int)
    requires
        side.valid(),
        side.admits(price),
        takes(side, price),
        !side.in_window(price),
    ensures
        side.base == i64::MIN ==> side.new_base(price) == price - (side.ticks / 2) * side.tick,
        side.base != i64::MIN && price < side.base ==> side.new_base(price) == price - (side.ticks
            / 4) * side.tick,
        side.base != i64::MIN && price >= side.base ==> side.new_base(price) + side.ticks
            * side.tick == price + (side.ticks / 4) * side.tick,
{
    let t = side.tick;
    let quarter = side.ticks / 4;
    if side.base != i64::MIN {
        let off = price - side.base;
        vstd::arithmetic::div_mod::lemma_fundamental_div_mod(off, t);
        let n = off / t;
        assert(t * n == n * t) by (nonlinear_arith);
        if price < side.base {
            let d = side.base - (price - quarter * t);
            assert(d == (quarter - n) * t) by (nonlinear_arith)
                requires
                    d == -off + quarter * t,
                    off == n * t,
            ;
            vstd::arithmetic::div_mod::lemma_div_by_multiple(quarter - n, t);
        } else {
            let d = price - side.ticks * t + quarter * t - side.base;
            assert(d == (n - side.ticks + quarter) * t) by (nonlinear_arith)
                requires
                    d == off - side.ticks * t + quarter * t,
                    off == n * t,
            ;
            assert(n >= side.ticks) by (nonlinear_arith)
                requires
                    n * t >= side.ticks * t,
                    t > 0,
            ;
            vstd::arithmetic::div_mod::lemma_div_by_multiple(n - side.ticks + quarter, t);
        }
    }
}

/// What leaves the window is what is counted as having left it.
proof fn lemma_left_behind(side: LadderState, placed: LadderState)
    requires
        side.levels.dom().finite(),
        placed.tick == side.tick,
        placed.ticks == side.ticks,
        placed.levels == side.levels.restrict(
            Set::new(|price: i64| placed.base <= price < placed.base + side.span()),
        ),
    ensures
        side.levels.dom().len() - placed.levels.dom().len() == left_behind(side, placed).len(),
        placed.levels.dom().finite(),
{
    let all = side.levels.dom();
    let gone = left_behind(side, placed);
    let kept = placed.levels.dom();
    assert(kept =~= all.difference(gone));
    assert(gone =~= all.intersect(gone));
    vstd::set_lib::lemma_set_intersect_union_lens(kept, gone);
    assert(kept + gone =~= all);
    assert(kept.intersect(gone) =~= Set::empty());
}

#[verifier::rlimit(30)]
proof fn lemma_put(side: LadderState, price: i64, qty: int)
    requires
        side.valid(),
        side.admits(price as int),
        takes(side, price as int),
        0 <= qty <= i64::MAX,
    ensures
        updated(side, side.put(price, qty), price, qty),
        resting(side.levels, price) == side.reaching(price as int).quantity(price),
{
    let after = side.put(price, qty);
    let placed = side.reaching(price as int);
    ladder::lemma_put_valid(side, price, qty);
    if !side.in_window(price as int) {
        lemma_new_base(side, price as int);
        lemma_left_behind(side, placed);
        assert(left_behind(side, after) =~= left_behind(side, placed));
        assert(!side.levels.contains_key(price));
    } else {
        assert(left_behind(side, after) =~= Set::empty());
    }
    assert forall|other: i64|
        #![trigger after.levels.contains_key(other)]
        other != price implies resting(after.levels, other) == (if spans(after, other as int) {
        resting(side.levels, other)
    } else {
        0
    }) && (after.levels.contains_key(other) <==> side.levels.contains_key(other) && spans(
        after,
        other as int,
    )) by {
        assert(side.levels.dom().contains(other) ==> side.in_window(other as int));
    }
}

/// Reaching for a price does not change what rests there.
pub proof fn lemma_reached(side: LadderState, price: i64)
    requires
        side.valid(),
        side.admits(price as int),
        takes(side, price as int),
    ensures
        side.reaching(price as int).quantity(price) == resting(side.levels, price),
{
    lemma_put(side, price, 0);
}

/// Setting a price on the grid leaves exactly that quantity there, or no level
/// where it is not positive. Other levels stay unless the window left them.
pub proof fn lemma_a_level_is_set(side: LadderState, price: i64, qty: i64)
    requires
        side.valid(),
        side.admits(price as int),
        takes(side, price as int),
    ensures
        updated(side, side.set(price, qty), price, not_negative(qty as int)),
{
    lemma_put(side, price, not_negative(qty as int));
}

/// Adding at a price on the grid leaves the sum there, or no level where the sum
/// is not positive. Other levels stay unless the window left them.
pub proof fn lemma_a_level_is_added_to(side: LadderState, price: i64, delta: i64)
    requires
        side.valid(),
        side.admits(price as int),
        takes(side, price as int),
        resting(side.levels, price) + delta <= i64::MAX,
    ensures
        updated(
            side,
            side.add(price, delta),
            price,
            not_negative(resting(side.levels, price) + delta),
        ),
        side.admits_add(price, delta),
{
    lemma_put(side, price, not_negative(resting(side.levels, price) + delta));
}

/// A price off the grid is counted, and nothing else changes.
pub proof fn lemma_off_the_grid_is_counted(side: LadderState, price: i64, qty: i64)
    requires
        !takes(side, price as int),
    ensures
        side.set(price, qty) == (LadderState { off_grid: side.off_grid + 1, ..side }),
        side.add(price, qty) == (LadderState { off_grid: side.off_grid + 1, ..side }),
{
}

/// Whether the window has no place yet or lies well inside the range of a price,
/// and the counters have room for `more` updates.
pub open spec fn ordinary(side: LadderState, more: int) -> bool {
    &&& side.valid()
    &&& side.rebases + more <= u64::MAX
    &&& side.off_grid + more <= u64::MAX
    &&& side.evicted + side.levels.dom().len() + more <= u64::MAX
    &&& side.base == i64::MIN || -0x3000_0000_0000_0000 <= side.base <= 0x3000_0000_0000_0000
}

/// Whether `price` lies well inside the range of a price.
pub open spec fn ordinary_price(price: int) -> bool {
    -0x1000_0000_0000_0000 <= price <= 0x1000_0000_0000_0000
}

/// A ladder takes every price that lies well inside the range of a price, as
/// long as its window does, whatever the price's distance from it.
pub proof fn lemma_ordinary_prices_are_taken(side: LadderState, price: int)
    requires
        ordinary(side, 1),
        ordinary_price(price),
    ensures
        side.admits(price),
{
    let quarter = side.ticks / 4;
    let t = side.tick;
    assert(0 <= quarter * t <= side.ticks * t) by (nonlinear_arith)
        requires
            t > 0,
            0 <= quarter <= side.ticks,
    ;
    if side.base != i64::MIN && price < side.base {
        let d = side.base - (price - side.headroom());
        vstd::arithmetic::div_mod::lemma_fundamental_div_mod(d, t);
        assert((d / t) * t == t * (d / t)) by (nonlinear_arith);
    }
}

/// An update at such a price leaves the ladder ready for the next one.
#[verifier::rlimit(30)]
pub proof fn lemma_ordinary_stays(side: LadderState, price: i64, delta: i64)
    requires
        ordinary(side, 2),
        ordinary_price(price as int),
        resting(side.levels, price) + delta <= i64::MAX,
        delta <= 0,
    ensures
        ordinary(side.add(price, delta), 1),
{
    let after = side.add(price, delta);
    lemma_ordinary_prices_are_taken(side, price as int);
    ladder::lemma_put_valid(
        side,
        price,
        ladder::at_least_zero(side.reaching(price as int).quantity(price) + delta),
    );
    if takes(side, price as int) {
        lemma_a_level_is_added_to(side, price, delta);
        let gone = left_behind(side, after);
        let all = side.levels.dom();
        let held = after.levels.dom();
        assert forall|p: i64| held.contains(p) implies all.contains(p) && !gone.contains(p) by {
            assert(after.levels.contains_key(p));
        }
        assert(held.intersect(gone) =~= Set::empty());
        vstd::set_lib::lemma_set_intersect_union_lens(held, gone);
        vstd::set_lib::lemma_len_subset(held + gone, all);
        let half = side.ticks / 2;
        let quarter = side.ticks / 4;
        let t = side.tick;
        assert(0 <= half * t <= side.ticks * t && 0 <= quarter * t <= side.ticks * t)
            by (nonlinear_arith)
            requires
                t > 0,
                0 <= quarter <= half <= side.ticks,
        ;
    }
}

/// The best bid is the highest price held and the best ask the lowest, with what
/// rests there; there is none exactly where no level is.
#[verifier::rlimit(30)]
pub proof fn lemma_the_best_price(
    levels: Map<i64, i64>,
    descending: bool,
    price: i64,
)
    requires
        levels.contains_key(price),
        forall|other: i64|
            #![trigger levels.contains_key(other)]
            levels.contains_key(other) ==> if descending {
                price <= other
            } else {
                other <= price
            },
    ensures
        ladder::touch(levels, descending) == Some((price, levels[price])),
        ladder::touch(Map::<i64, i64>::empty(), descending) is None,
{
    let best = (price, levels[price]);
    assert forall|other: i64|
        #![trigger levels.dom().contains(other)]
        levels.dom().contains(other) && other != price implies ladder::closer(
        descending,
        price as int,
        other as int,
    ) by {
        assert(levels.contains_key(other));
    }
    assert(ladder::is_touch(levels, descending, best));
    ladder::lemma_touch_is(levels, descending, best);
    ladder::lemma_no_touch(descending);
}

/// A walk lists bids from the highest price down and asks from the lowest up,
/// each live level once with its quantity.
#[verifier::rlimit(30)]
pub proof fn lemma_what_a_walk_lists(
    levels: Map<i64, i64>,
    descending: bool,
    walk: Seq<(i64, i64)>,
)
    ensures
        ladder::is_walk(levels, descending, walk) <==> {
            &&& forall|i: int|
                #![trigger walk[i]]
                0 <= i < walk.len() ==> levels.contains_key(walk[i].0) && levels[walk[i].0]
                    == walk[i].1
            &&& forall|i: int, j: int|
                #![trigger walk[i], walk[j]]
                0 <= i < j < walk.len() ==> if descending {
                    walk[i].0 < walk[j].0
                } else {
                    walk[i].0 > walk[j].0
                }
            &&& forall|price: i64|
                #![trigger levels.contains_key(price)]
                levels.contains_key(price) ==> exists|i: int|
                    #![trigger walk[i]]
                    0 <= i < walk.len() && walk[i].0 == price
        },
{
    if ladder::is_walk(levels, descending, walk) {
        assert forall|price: i64|
            #![trigger levels.contains_key(price)]
            levels.contains_key(price) implies exists|i: int|
            #![trigger walk[i]]
            0 <= i < walk.len() && walk[i].0 == price by {
            assert(levels.dom().contains(price));
        }
    }
    if forall|price: i64|
        #![trigger levels.contains_key(price)]
        levels.contains_key(price) ==> exists|i: int|
            #![trigger walk[i]]
            0 <= i < walk.len() && walk[i].0 == price {
        assert forall|price: i64|
            #![trigger levels.dom().contains(price)]
            levels.dom().contains(price) implies exists|i: int|
            #![trigger walk[i]]
            0 <= i < walk.len() && walk[i].0 == price by {
            assert(levels.contains_key(price));
        }
    }
}

/// A band is one that a ladder can be made for where its tick is positive, it has
/// four ticks or more, and the price it spans, times the least power of two that
/// is no less than its ticks, is at most two to the 63.
#[verifier::rlimit(30)]
pub proof fn lemma_which_bands_fit(band: Band, w: nat)
    requires
        band.ticks >= 1,
        w <= 63,
        power2::pow2(w) >= band.ticks,
        w == 0 || power2::pow2((w - 1) as nat) < band.ticks,
    ensures
        band.fits() <==> {
            &&& band.tick > 0
            &&& band.ticks >= 4
            &&& band.ticks * band.tick * power2::pow2(w) <= 0x8000_0000_0000_0000
        },
{
    let n = band.ticks as nat;
    let c = powers::ceil_log2(n);
    powers::lemma_ceil_log2(n);
    power2::lemma2_to64();
    power2::lemma2_to64_rest();
    assert(c == w) by {
        if c < w {
            if c < w - 1 {
                power2::lemma_pow2_strictly_increases(c, (w - 1) as nat);
            }
        }
        if w < c {
            if n >= 2 {
                if w < c - 1 {
                    power2::lemma_pow2_strictly_increases(w, (c - 1) as nat);
                }
            } else {
                assert(powers::ceil_log2(1) == 0);
            }
        }
    }
    let s = (63 - w) as nat;
    power2::lemma_pow2_adds(s, w);
    let span = band.ticks * band.tick;
    let p = power2::pow2(w) as int;
    let q = power2::pow2(s) as int;
    power2::lemma_pow2_pos(w);
    assert(span <= q <==> span * p <= q * p) by (nonlinear_arith)
        requires
            p > 0,
    ;
}

/// Whether `best` is the best of `levels`: the lowest price where `lowest` counts,
/// the highest otherwise, with what rests there, and none where there is no level.
pub open spec fn is_best_of(
    levels: Map<i64, i64>,
    lowest: bool,
    best: Option<(i64, i64)>,
) -> bool {
    match best {
        Some((price, qty)) => {
            &&& levels.contains_key(price)
            &&& levels[price] == qty
            &&& forall|other: i64|
                #![trigger levels.contains_key(other)]
                levels.contains_key(other) ==> if lowest {
                    price <= other
                } else {
                    other <= price
                }
        },
        None => forall|other: i64| !#[trigger] levels.contains_key(other),
    }
}

proof fn lemma_is_best(levels: Map<i64, i64>, lowest: bool, best: (i64, i64))
    requires
        ladder::is_touch(levels, lowest, best),
    ensures
        is_best_of(levels, lowest, Some(best)),
{
    assert forall|other: i64|
        #![trigger levels.contains_key(other)]
        levels.contains_key(other) implies if lowest {
        best.0 <= other
    } else {
        other <= best.0
    } by {
        assert(levels.dom().contains(other));
    }
}

/// A ladder and the books on maps give the best price they hold.
pub proof fn lemma_best_is_given(
    side: Ladder,
    best: Option<(i64, i64)>,
    book: ReferenceSymbol,
    bid: Option<(i64, i64)>,
    ask: Option<(i64, i64)>,
)
    requires
        side.wf(),
        call_ensures(Ladder::best, (&side,), best),
        call_ensures(ReferenceSymbol::best_bid, (&book,), bid),
        call_ensures(ReferenceSymbol::best_ask, (&book,), ask),
    ensures
        is_best_of(side@.levels, side@.descending, best),
        is_best_of(book@.bids, false, bid),
        is_best_of(book@.asks, true, ask),
{
    if let Some(level) = best {
        lemma_is_best(side@.levels, side@.descending, level);
    }
    if let Some(level) = bid {
        lemma_is_best(book@.bids, false, level);
    }
    if let Some(level) = ask {
        lemma_is_best(book@.asks, true, level);
    }
}

} // verus!
