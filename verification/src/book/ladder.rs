//! One side of a book: a dense quantity array over a window of the price grid,
//! with an occupancy bitmap above it, and the window following the market.

use vstd::prelude::*;

use crate::book::bitmap;
use crate::powers;
use crate::wire;

verus! {

/// An instrument's price grid: the tick size, and how wide a window of it to
/// keep resident.
///
/// No floor. The window finds its own place from the first price it sees and
/// follows the market from there, so an instrument needs no advance
/// declaration of where it will trade.
#[derive(Clone, Copy, Debug)]
pub struct Band {
    /// Smallest price increment, in the same fixed-point units as prices.
    pub tick: i64,
    /// Ticks held resident. The window only has to span the live depth of the
    /// book, not the instrument's lifetime range.
    pub ticks: usize,
}

/// The scale of the reciprocal for a window of `ticks` ticks.
pub open spec fn scale(ticks: nat) -> int {
    63 - powers::ceil_log2(ticks)
}

impl Band {
    /// A grid needs a positive tick and at least four levels, and the window
    /// has to fit the reciprocal's scale.
    pub open spec fn fits(self) -> bool {
        &&& self.tick > 0
        &&& self.ticks >= 4
        &&& scale(self.ticks as nat) >= 0
        &&& self.ticks * self.tick <= vstd::arithmetic::power2::pow2(scale(self.ticks as nat) as nat)
    }
}

/// A fitting window is at most `2^31` ticks wide.
proof fn lemma_band(band: Band)
    requires
        band.fits(),
    ensures
        2 <= powers::ceil_log2(band.ticks as nat) <= 63,
        band.ticks <= powers::power_above(band.ticks as nat) <= 0x8000_0000,
        band.tick <= 0x800_0000_0000_0000,
{
    let n = band.ticks as nat;
    let w = powers::ceil_log2(n);
    let s = scale(n) as nat;
    powers::lemma_ceil_log2(n);
    vstd::arithmetic::power2::lemma2_to64();
    vstd::arithmetic::power2::lemma2_to64_rest();
    if w < 2 {
        assert(w == 0 || w == 1);
    }
    assert(n * band.tick >= 4 * band.tick && n * band.tick >= n) by (nonlinear_arith)
        requires
            n >= 4,
            band.tick >= 1,
    ;
    if s < 61 {
        vstd::arithmetic::power2::lemma_pow2_strictly_increases(s, 61);
    }
    if w < 31 {
        vstd::arithmetic::power2::lemma_pow2_strictly_increases(w, 31);
    }
    if w > 31 {
        if s < 31 {
            vstd::arithmetic::power2::lemma_pow2_strictly_increases(s, 31);
        }
        if w > 32 {
            vstd::arithmetic::power2::lemma_pow2_strictly_increases(31, (w - 1) as nat);
        }
    }
}

/// Where live levels go when a ladder is walked.
pub trait Visit {
    /// Every level visited so far, in order.
    spec fn visited(&self) -> Seq<(i64, i64)>;

    fn visit(&mut self, price: i64, qty: i64)
        ensures
            final(self).visited() == old(self).visited().push((price, qty)),
    ;
}

/// A vector collects.
impl Visit for Vec<(i64, i64)> {
    open spec fn visited(&self) -> Seq<(i64, i64)> {
        self@
    }

    fn visit(&mut self, price: i64, qty: i64) {
        self.push((price, qty));
    }
}

/// What a ladder holds.
#[verifier::ext_equal]
pub struct LadderState {
    /// The lowest price of the window; `i64::MIN` while it has no place.
    pub base: int,
    pub tick: int,
    /// Ticks in the window.
    pub ticks: int,
    /// Whether the touch is the lowest price, as it is for asks.
    pub descending: bool,
    /// Quantity at each live price.
    pub levels: Map<i64, i64>,
    pub rebases: nat,
    pub off_grid: nat,
    pub evicted: nat,
}

/// `n` where it is positive.
pub open spec fn at_least_zero(n: int) -> int {
    if n > 0 {
        n
    } else {
        0
    }
}

/// Whether price `a` is closer to the touch than price `b`.
pub open spec fn closer(descending: bool, a: int, b: int) -> bool {
    if descending {
        a < b
    } else {
        a > b
    }
}

/// The best price of `levels` and its quantity.
pub open spec fn is_touch(levels: Map<i64, i64>, descending: bool, touch: (i64, i64)) -> bool {
    &&& levels.contains_pair(touch.0, touch.1)
    &&& forall|price: i64|
        #![trigger levels.dom().contains(price)]
        levels.dom().contains(price) && price != touch.0 ==> closer(
            descending,
            touch.0 as int,
            price as int,
        )
}

/// The best price and its quantity, where there is a level at all.
pub open spec fn touch(levels: Map<i64, i64>, descending: bool) -> Option<(i64, i64)> {
    if exists|best: (i64, i64)| is_touch(levels, descending, best) {
        Some(choose|best: (i64, i64)| is_touch(levels, descending, best))
    } else {
        None
    }
}

/// `walk` lists exactly `levels`, from the touch outward.
pub open spec fn is_walk(
    levels: Map<i64, i64>,
    descending: bool,
    walk: Seq<(i64, i64)>,
) -> bool {
    &&& forall|i: int|
        #![trigger walk[i]]
        0 <= i < walk.len() ==> levels.contains_pair(walk[i].0, walk[i].1)
    &&& forall|i: int, j: int|
        #![trigger walk[i], walk[j]]
        0 <= i < j < walk.len() ==> closer(descending, walk[i].0 as int, walk[j].0 as int)
    &&& forall|price: i64|
        #![trigger levels.dom().contains(price)]
        levels.dom().contains(price) ==> exists|i: int|
            #![trigger walk[i]]
            0 <= i < walk.len() && walk[i].0 == price
}

impl LadderState {
    pub open spec fn empty(band: Band, descending: bool) -> LadderState {
        LadderState {
            base: i64::MIN as int,
            tick: band.tick as int,
            ticks: band.ticks as int,
            descending,
            levels: Map::empty(),
            rebases: 0,
            off_grid: 0,
            evicted: 0,
        }
    }

    /// Price the window spans.
    pub open spec fn span(self) -> int {
        self.ticks * self.tick
    }

    /// Half a window, in whole ticks.
    pub open spec fn half(self) -> int {
        (self.ticks / 2) * self.tick
    }

    /// A quarter window.
    pub open spec fn headroom(self) -> int {
        (self.ticks / 4) * self.tick
    }

    pub open spec fn in_window(self, price: int) -> bool {
        self.base <= price < self.base + self.span()
    }

    pub open spec fn on_grid(self, price: int) -> bool {
        (price - self.base) % self.tick == 0
    }

    /// Whether `price` is off the grid. The first price lays the grid.
    pub open spec fn refuses(self, price: int) -> bool {
        self.base != i64::MIN && !self.on_grid(price)
    }

    pub open spec fn quantity(self, price: i64) -> int {
        if self.levels.dom().contains(price) {
            self.levels[price] as int
        } else {
            0
        }
    }

    /// Where the window goes for a price outside it. The first price is
    /// centred. After that the window moves just past the edge that was
    /// breached, by whole ticks, and leaves a quarter window of headroom.
    pub open spec fn new_base(self, price: int) -> int {
        if self.base == i64::MIN {
            price - self.half()
        } else if price < self.base {
            self.base - ((self.base - (price - self.headroom())) / self.tick) * self.tick
        } else {
            self.base + ((price - self.span() + self.headroom() - self.base) / self.tick)
                * self.tick
        }
    }

    /// The window moved to `base`, with the live levels that it still spans.
    pub open spec fn moved(self, base: int) -> LadderState {
        let kept = self.levels.restrict(
            Set::new(|price: i64| base <= price < base + self.span()),
        );
        LadderState {
            base,
            levels: kept,
            rebases: self.rebases + 1,
            evicted: (self.evicted + self.levels.dom().len() - kept.dom().len()) as nat,
            ..self
        }
    }

    /// The ladder with `price` inside the window.
    pub open spec fn reaching(self, price: int) -> LadderState {
        if self.in_window(price) {
            self
        } else {
            self.moved(self.new_base(price))
        }
    }

    /// The quantity at `price` made `qty`, where zero means no level. A price
    /// off the grid is refused and counted, and disturbs nothing.
    pub open spec fn put(self, price: i64, qty: int) -> LadderState {
        let placed = self.reaching(price as int);
        if self.refuses(price as int) {
            LadderState { off_grid: self.off_grid + 1, ..self }
        } else if qty > 0 {
            LadderState { levels: placed.levels.insert(price, qty as i64), ..placed }
        } else {
            LadderState { levels: placed.levels.remove(price), ..placed }
        }
    }

    pub open spec fn set(self, price: i64, qty: i64) -> LadderState {
        self.put(price, at_least_zero(qty as int))
    }

    pub open spec fn add(self, price: i64, delta: i64) -> LadderState {
        self.put(
            price,
            at_least_zero(self.reaching(price as int).quantity(price) + delta),
        )
    }

    /// Whether the ladder can answer for `price`: the counters have room, and
    /// where the window has to move, its new place can be computed and is not
    /// the unplaced mark.
    pub open spec fn admits(self, price: int) -> bool {
        &&& self.rebases < u64::MAX
        &&& self.off_grid < u64::MAX
        &&& self.evicted + self.levels.dom().len() <= u64::MAX
        &&& self.in_window(price) || self.refuses(price) && price - self.base >= i64::MIN
            || if self.base == i64::MIN {
            price >= self.base + self.span()
        } else if price < self.base {
            &&& price - self.headroom() >= i64::MIN
            &&& price - self.headroom() - self.base >= i64::MIN
            &&& self.new_base(price) > i64::MIN
        } else {
            price - self.span() + self.headroom() - self.base <= i64::MAX
        }
        &&& self.base == i64::MIN ==> !self.in_window(price)
    }

    /// Whether `delta` can be added at `price`.
    pub open spec fn admits_add(self, price: i64, delta: i64) -> bool {
        &&& self.admits(price as int)
        &&& !self.refuses(price as int) ==> self.reaching(price as int).quantity(price) + delta
            <= i64::MAX
    }

    /// What every ladder keeps.
    pub open spec fn valid(self) -> bool {
        &&& self.tick > 0
        &&& self.ticks >= 4
        &&& i64::MIN <= self.base <= i64::MAX
        &&& self.span() <= 0x2000_0000_0000_0000
        &&& self.levels.dom().finite()
        &&& self.base == i64::MIN ==> self.levels =~= Map::empty()
        &&& forall|price: i64|
            #![trigger self.levels.dom().contains(price)]
            self.levels.dom().contains(price) ==> {
                &&& self.levels[price] > 0
                &&& self.in_window(price as int)
                &&& self.on_grid(price as int)
            }
    }
}

// --------------------------------------------------------------- the arithmetic

proof fn lemma_multiple(i: int, t: int)
    requires
        t > 0,
    ensures
        (i * t) % t == 0,
        (i * t) / t == i,
{
    vstd::arithmetic::div_mod::lemma_mod_multiples_basic(i, t);
    vstd::arithmetic::div_mod::lemma_fundamental_div_mod(i * t, t);
    assert(t * ((i * t) / t) == i * t);
    assert((i * t) / t == i) by (nonlinear_arith)
        requires
            t > 0,
            t * ((i * t) / t) == i * t,
    ;
}

proof fn lemma_whole(x: int, t: int)
    requires
        t > 0,
    ensures
        x == (x / t) * t + x % t,
        0 <= x % t < t,
{
    vstd::arithmetic::div_mod::lemma_fundamental_div_mod(x, t);
    assert(t * (x / t) == (x / t) * t) by (nonlinear_arith);
}

/// Moving the base by whole ticks keeps the grid.
proof fn lemma_same_grid(x: int, steps: int, t: int)
    requires
        t > 0,
    ensures
        (x + steps * t) % t == x % t,
{
    vstd::arithmetic::div_mod::lemma_mod_multiples_vanish(steps, x, t);
    assert(t * steps == steps * t) by (nonlinear_arith);
}

/// A ladder never holds more levels than its window has ticks.
pub proof fn lemma_depth_bounded(state: LadderState)
    requires
        state.valid(),
    ensures
        state.levels.dom().len() <= state.ticks,
{
    let held = state.levels.dom();
    let index = |price: i64| (price - state.base) / state.tick;
    let slots = vstd::set_lib::set_int_range(0, state.ticks);
    vstd::set_lib::lemma_int_range(0, state.ticks);
    assert forall|price: i64| #[trigger] held.contains(price) implies 0 <= index(price)
        < state.ticks && price == state.base + index(price) * state.tick by {
        lemma_whole(price - state.base, state.tick);
        let i = index(price);
        assert(0 <= i < state.ticks) by (nonlinear_arith)
            requires
                0 <= i * state.tick < state.ticks * state.tick,
                state.tick > 0,
        ;
    }
    assert(vstd::relations::injective_on(index, held));
    vstd::set_lib::lemma_map_size(held, held.map(index), index);
    assert(held.map(index).subset_of(slots));
    vstd::set_lib::lemma_len_subset(held.map(index), slots);
}

/// A walk has one entry a level.
pub proof fn lemma_walk_len(levels: Map<i64, i64>, descending: bool, walk: Seq<(i64, i64)>)
    requires
        is_walk(levels, descending, walk),
    ensures
        levels.dom().finite(),
        walk.len() == levels.dom().len(),
{
    let prices = walk.map_values(|level: (i64, i64)| level.0);
    assert forall|i: int, j: int| 0 <= i < j < prices.len() implies prices[i] != prices[j] by {
        assert(closer(descending, walk[i].0 as int, walk[j].0 as int));
    }
    assert(prices.no_duplicates());
    prices.unique_seq_to_set();
    assert forall|price: i64| levels.dom().contains(price) implies prices.to_set().contains(
        price,
    ) by {
        let i = choose|i: int| #![trigger walk[i]] 0 <= i < walk.len() && walk[i].0 == price;
        assert(prices[i] == price);
    }
    assert forall|price: i64| prices.to_set().contains(price) implies levels.dom().contains(
        price,
    ) by {
        let i = choose|i: int| 0 <= i < prices.len() && prices[i] == price;
        assert(levels.contains_pair(walk[i].0, walk[i].1));
    }
    assert(prices.to_set() =~= levels.dom());
}

/// Levels have one walk: the touch outward is an order, not a choice.
pub proof fn lemma_walk_unique(
    levels: Map<i64, i64>,
    descending: bool,
    a: Seq<(i64, i64)>,
    b: Seq<(i64, i64)>,
)
    requires
        is_walk(levels, descending, a),
        is_walk(levels, descending, b),
    ensures
        a == b,
{
    lemma_walk_len(levels, descending, a);
    lemma_walk_len(levels, descending, b);
    assert forall|i: int| 0 <= i < a.len() implies a[i] == b[i] by {
        lemma_walk_agrees(levels, descending, a, b, i);
    }
    assert(a =~= b);
}

proof fn lemma_walk_agrees(
    levels: Map<i64, i64>,
    descending: bool,
    a: Seq<(i64, i64)>,
    b: Seq<(i64, i64)>,
    i: int,
)
    requires
        is_walk(levels, descending, a),
        is_walk(levels, descending, b),
        a.len() == b.len(),
        0 <= i < a.len(),
    ensures
        a[i] == b[i],
    decreases i,
{
    assert forall|k: int| 0 <= k < i implies a[k] == b[k] by {
        lemma_walk_agrees(levels, descending, a, b, k);
    }
    assert(levels.dom().contains(a[i].0) && levels.dom().contains(b[i].0));
    let j = choose|j: int| #![trigger b[j]] 0 <= j < b.len() && b[j].0 == a[i].0;
    let k = choose|k: int| #![trigger a[k]] 0 <= k < a.len() && a[k].0 == b[i].0;
    if j < i {
        assert(a[j] == b[j]);
    }
    if k < i {
        assert(a[k] == b[k]);
    }
}

/// A window that moves for a price takes that price in and keeps its grid.
pub proof fn lemma_window_reaches(state: LadderState, price: int)
    requires
        state.valid(),
        state.admits(price),
        !state.in_window(price),
        !state.refuses(price),
    ensures
        i64::MIN < state.new_base(price) <= price < state.new_base(price) + state.span(),
        (price - state.new_base(price)) % state.tick == 0,
        state.base != i64::MIN ==> {
            &&& (state.new_base(price) - state.base) % state.tick == 0
            &&& state.new_base(price) - state.base <= i64::MAX
        },
{
    let t = state.tick;
    let span = state.span();
    let headroom = state.headroom();
    lemma_window_parts(state);
    if state.base == i64::MIN {
        lemma_multiple(state.ticks / 2, t);
    } else if price < state.base {
        let d = state.base - (price - headroom);
        lemma_whole(d, t);
        lemma_same_grid(0, -(d / t), t);
        assert(-(d / t) * t == -((d / t) * t)) by (nonlinear_arith);
        vstd::arithmetic::div_mod::lemma_small_mod(0, t as nat);
        lemma_same_grid(price - state.base, d / t, t);
    } else {
        let d = price - span + headroom - state.base;
        lemma_whole(d, t);
        lemma_multiple(d / t, t);
        lemma_same_grid(price - state.base, -(d / t), t);
        assert(-(d / t) * t == -((d / t) * t)) by (nonlinear_arith);
    }
}

/// A quarter window is at least a tick, and half a window lies between a
/// quarter and three.
proof fn lemma_window_parts(state: LadderState)
    requires
        state.tick > 0,
        state.ticks >= 4,
    ensures
        state.tick <= state.headroom(),
        4 * state.headroom() <= state.span(),
        state.headroom() <= state.half(),
        2 * state.half() <= state.span(),
        state.half() + state.headroom() <= state.span(),
{
    let t = state.tick;
    let span = state.span();
    let quarter = state.ticks / 4;
    let half = state.ticks / 2;
    assert(t <= quarter * t && 4 * (quarter * t) <= span) by (nonlinear_arith)
        requires
            t > 0,
            quarter >= 1,
            4 * quarter <= state.ticks,
            span == state.ticks * t,
    ;
    assert(quarter * t <= half * t && 2 * (half * t) <= span) by (nonlinear_arith)
        requires
            t > 0,
            quarter <= half,
            2 * half <= state.ticks,
            span == state.ticks * t,
    ;
}

// ------------------------------------------------------------------ the ladder

/// One side of a book.
///
/// Prices live on a grid, so a price is an index and an update is one store.
/// The window recentres when a price falls outside it, carrying the live
/// levels across. The index is a reciprocal multiply instead of a divide, and
/// it is exact: see [`Ladder::index_of`].
#[derive(Clone, Debug)]
pub struct Ladder {
    /// Quantity at each tick index; zero means no level.
    qty: Vec<i64>,
    /// One bit per tick: is there quantity. The walk structure.
    occupied: Vec<u64>,
    /// Price at index zero. Moves when the market leaves the window.
    base: i64,
    tick: i64,
    /// `ceil(2^shift / tick)`, the divide's replacement.
    reciprocal: u64,
    shift: u32,
    /// Tick index of the best level, or `usize::MAX` when empty.
    best: usize,
    /// Bids' best is the highest occupied index; asks' the lowest.
    descending: bool,
    len: usize,
    /// Windows recentred, and prices refused for not lying on the grid.
    rebases: u64,
    off_grid: u64,
    evicted: u64,
}

const EMPTY: usize = usize::MAX;

impl View for Ladder {
    type V = LadderState;

    closed spec fn view(&self) -> LadderState {
        LadderState {
            base: self.base as int,
            tick: self.tick as int,
            ticks: self.qty@.len() as int,
            descending: self.descending,
            levels: self.levels(),
            rebases: self.rebases as nat,
            off_grid: self.off_grid as nat,
            evicted: self.evicted as nat,
        }
    }
}

impl Ladder {
    spec fn live(&self, i: int) -> bool {
        0 <= i < self.qty@.len() && self.qty@[i] > 0
    }

    /// The tick index of a price.
    spec fn slot(&self, price: int) -> int {
        (price - self.base) / (self.tick as int)
    }

    /// The price of a tick index.
    spec fn price_of(&self, i: int) -> int {
        self.base + i * self.tick
    }

    spec fn width(&self) -> int {
        self.qty@.len() * self.tick
    }

    spec fn has_level(&self, price: int) -> bool {
        &&& self.base <= price < self.base + self.width()
        &&& (price - self.base) % (self.tick as int) == 0
        &&& self.qty@[self.slot(price)] > 0
    }

    spec fn levels(&self) -> Map<i64, i64> {
        Map::new(|price: i64| self.has_level(price as int), |price: i64|
            self.qty@[self.slot(price as int)])
    }

    /// The grid and the reciprocal.
    spec fn scaled(&self) -> bool {
        &&& (Band { tick: self.tick, ticks: self.qty.len() }).fits()
        &&& self.shift == scale(self.qty@.len())
        &&& self.reciprocal == (vstd::arithmetic::power2::pow2(self.shift as nat) + self.tick - 1)
            / self.tick as int
    }

    /// The quantities, the bitmap and the touch agree.
    spec fn consistent(&self) -> bool {
        &&& self.occupied@.len() == (self.qty@.len() + 63) / 64
        &&& forall|i: int| #![trigger self.qty@[i]] 0 <= i < self.qty@.len() ==> self.qty@[i] >= 0
        &&& forall|i: int|
            #![trigger bitmap::bit(self.occupied@, i)]
            0 <= i < 64 * self.occupied@.len() ==> bitmap::bit(self.occupied@, i) == self.live(i)
        &&& forall|i: int| #![trigger self.price_of(i)] self.live(i) ==> self.price_of(i) <= i64::MAX
        &&& self.best == EMPTY || self.live(self.best as int)
        &&& forall|i: int|
            #![trigger self.live(i)]
            self.live(i) ==> self.best != EMPTY && (i == self.best || closer(
                self.descending,
                self.best as int,
                i,
            ))
    }

    /// What every operation keeps.
    pub closed spec fn wf(&self) -> bool {
        &&& self.scaled()
        &&& self.consistent()
        &&& self.levels().dom().finite()
        &&& self.len == self.levels().dom().len()
        &&& self.base == i64::MIN ==> forall|i: int| #![trigger self.live(i)] !self.live(i)
    }

    /// The window is narrower than the scale, and small enough to move.
    proof fn lemma_scaled(&self)
        requires
            self.scaled(),
        ensures
            self.tick > 0,
            self.qty@.len() >= 4,
            2 <= 63 - self.shift <= 63,
            self.width() <= vstd::arithmetic::power2::pow2(self.shift as nat)
                <= 0x2000_0000_0000_0000,
            self.qty@.len() <= vstd::arithmetic::power2::pow2((63 - self.shift) as nat),
            self.qty@.len() <= 0x8000_0000,
            self.tick <= 0x800_0000_0000_0000,
            self@.span() == self.width(),
    {
        assert(self.qty@.len() == self.qty.len());
        lemma_band(Band { tick: self.tick, ticks: self.qty.len() });
        vstd::arithmetic::power2::lemma2_to64_rest();
        if self.shift < 61 {
            vstd::arithmetic::power2::lemma_pow2_strictly_increases(self.shift as nat, 61);
        }
    }

    /// A tick index and its price determine each other.
    proof fn lemma_slot(&self, i: int)
        requires
            self.tick > 0,
            0 <= i < self.qty@.len(),
        ensures
            self.slot(self.price_of(i)) == i,
            (self.price_of(i) - self.base) % (self.tick as int) == 0,
            self.base <= self.price_of(i) <= self.base + self.width() - self.tick,
    {
        lemma_multiple(i, self.tick as int);
        assert(0 <= i * self.tick <= self.qty@.len() * self.tick - self.tick) by (nonlinear_arith)
            requires
                0 <= i < self.qty@.len(),
                self.tick > 0,
        ;
    }

    proof fn lemma_price(&self, price: int)
        requires
            self.tick > 0,
            self.base <= price < self.base + self.width(),
            (price - self.base) % (self.tick as int) == 0,
        ensures
            0 <= self.slot(price) < self.qty@.len(),
            self.price_of(self.slot(price)) == price,
    {
        let i = self.slot(price);
        let n = self.qty@.len();
        lemma_whole(price - self.base, self.tick as int);
        assert(0 <= i < n) by (nonlinear_arith)
            requires
                0 <= i * self.tick < n * self.tick,
                self.tick > 0,
        ;
    }

    /// Levels are the live slots by another name.
    proof fn lemma_levels(&self, i: int)
        requires
            self.tick > 0,
            0 <= i < self.qty@.len(),
            i64::MIN <= self.price_of(i) <= i64::MAX,
        ensures
            self.levels().dom().contains(self.price_of(i) as i64) == self.live(i),
            self.live(i) ==> self.levels()[self.price_of(i) as i64] == self.qty@[i],
    {
        self.lemma_slot(i);
    }

    /// What a well-formed ladder holds is valid.
    pub proof fn lemma_valid(&self)
        requires
            self.wf(),
        ensures
            self@.valid(),
    {
        self.lemma_scaled();
        assert forall|price: i64| self@.levels.dom().contains(price) implies {
            &&& self@.levels[price] > 0
            &&& self@.in_window(price as int)
            &&& self@.on_grid(price as int)
        } by {}
        if self.base == i64::MIN {
            assert forall|price: i64| !self.levels().dom().contains(price) by {
                if self.levels().dom().contains(price) {
                    self.lemma_price(price as int);
                    assert(self.live(self.slot(price as int)));
                }
            }
            assert(self@.levels =~= Map::empty());
        }
    }

    #[must_use]
    pub fn bids(band: Band) -> (ladder: Self)
        requires
            band.fits(),
        ensures
            ladder.wf(),
            ladder@ == LadderState::empty(band, false),
    {
        Self::new(band, false)
    }

    #[must_use]
    pub fn asks(band: Band) -> (ladder: Self)
        requires
            band.fits(),
        ensures
            ladder.wf(),
            ladder@ == LadderState::empty(band, true),
    {
        Self::new(band, true)
    }

    /// The scale is picked from the width, and the width then bounds the tick.
    ///
    /// `63 - ceil(log2(ticks))` is the largest scale at which the product in
    /// [`Ladder::index_of`] cannot overflow 64 bits.
    fn new(band: Band, descending: bool) -> (ladder: Self)
        requires
            band.fits(),
        ensures
            ladder.wf(),
            ladder@ == LadderState::empty(band, descending),
    {
        proof {
            lemma_band(band);
        }
        let (_, width) = powers::next_power_of_two(band.ticks);
        let shift: u32 = 63 - width;
        proof {
            vstd::arithmetic::power2::lemma2_to64_rest();
            if shift < 61 {
                vstd::arithmetic::power2::lemma_pow2_strictly_increases(shift as nat, 61);
            }
            vstd::bits::lemma_u64_shl_is_mul(1, shift as u64);
        }
        let scaled: u64 = 1u64 << shift as u64;
        let reciprocal = (scaled + (band.tick as u64 - 1)) / band.tick as u64;
        let ladder = Ladder {
            qty: vec![0i64; band.ticks],
            occupied: bitmap::empty(band.ticks),
            // Unplaced: the first price decides where the window sits.
            base: i64::MIN,
            tick: band.tick,
            reciprocal,
            shift,
            best: EMPTY,
            descending,
            len: 0,
            rebases: 0,
            off_grid: 0,
            evicted: 0,
        };
        proof {
            assert forall|i: int| !ladder.live(i) by {}
            assert forall|price: i64| !ladder.levels().dom().contains(price) by {
                if ladder.levels().dom().contains(price) {
                    ladder.lemma_price(price as int);
                    assert(ladder.live(ladder.slot(price as int)));
                }
            }
            assert(ladder.levels() =~= Map::empty());
        }
        ladder
    }

    /// `offset / tick` as a multiply, for an offset inside the window.
    ///
    /// With `m = ceil(2^s / tick)`, `tick * m` lies in `[2^s, 2^s + tick)`. For
    /// an on-grid offset `k * tick` the product is `k * (tick * m)`, which lies
    /// in `[k * 2^s, k * 2^s + offset)`, so the shift recovers `k` exactly
    /// whenever `offset < 2^s`, as the window's span guarantees. The same bound
    /// keeps the product itself under `2^64`.
    fn index_of(&self, offset: u64) -> (index: u64)
        requires
            self.scaled(),
            offset < self.width(),
        ensures
            offset as int % self.tick as int == 0 ==> index == offset as int / self.tick as int,
            index <= self.qty@.len(),
    {
        let ghost s = vstd::arithmetic::power2::pow2(self.shift as nat) as int;
        let ghost w = vstd::arithmetic::power2::pow2((63 - self.shift) as nat) as int;
        let ghost t = self.tick as int;
        let ghost m = self.reciprocal as int;
        let ghost n = self.qty@.len() as int;
        let ghost o = offset as int;
        proof {
            self.lemma_scaled();
            vstd::arithmetic::power2::lemma_pow2_adds(
                self.shift as nat,
                (63 - self.shift) as nat,
            );
            vstd::arithmetic::power2::lemma2_to64();
            vstd::arithmetic::power2::lemma2_to64_rest();
            assert(s * w == 0x8000_0000_0000_0000);
            lemma_whole(s + t - 1, t);
            assert(s <= m * t <= s + t - 1);
            assert(o * m <= n * (m * t)) by (nonlinear_arith)
                requires
                    0 <= o < n * t,
                    m >= 0,
            ;
            assert(n * (m * t) <= w * s + s) by (nonlinear_arith)
                requires
                    0 <= n <= w,
                    0 <= m * t <= s + t - 1,
                    n * t <= s,
                    s >= 0,
            ;
            assert(0 <= o * m) by (nonlinear_arith)
                requires
                    o >= 0,
                    m >= 0,
            ;
            vstd::bits::lemma_u64_shr_is_div((o * m) as u64, self.shift as u64);
            let k = o / t;
            lemma_whole(o, t);
            assert(s > 0) by {
                vstd::arithmetic::power2::lemma_pow2_pos(self.shift as nat);
            }
            let q = (o * m) / s;
            lemma_whole(o * m, s);
            if o % t == 0 {
                assert(k * s <= o * m < k * s + s) by (nonlinear_arith)
                    requires
                        o == k * t,
                        0 <= o < s,
                        0 <= k,
                        t > 0,
                        s <= m * t <= s + t - 1,
                ;
                assert(q == k) by (nonlinear_arith)
                    requires
                        k * s <= o * m < k * s + s,
                        o * m == q * s + (o * m) % s,
                        0 <= (o * m) % s < s,
                        s > 0,
                ;
            }
            assert(n * (m * t) < n * s + s) by (nonlinear_arith)
                requires
                    m * t <= s + t - 1,
                    n * t <= s,
                    n >= 4,
            ;
            assert(0 <= q <= n) by (nonlinear_arith)
                requires
                    0 <= o * m < n * s + s,
                    o * m == q * s + (o * m) % s,
                    0 <= (o * m) % s < s,
                    s > 0,
            ;
        }
        (offset * self.reciprocal) >> self.shift as u64
    }

    /// Distance from the window's base, as an unsigned value.
    ///
    /// The wrap is the point: one unsigned comparison against the span decides
    /// both "below the window" and "above it".
    fn offset_of(&self, price: i64) -> (offset: u64)
        ensures
            price >= self.base ==> offset == price - self.base,
            price < self.base ==> offset == price - self.base + 0x1_0000_0000_0000_0000,
    {
        wire::to_unsigned(price).wrapping_sub(wire::to_unsigned(self.base))
    }

    /// Price the window spans, in fixed-point units.
    fn span(&self) -> (span: u64)
        requires
            self.scaled(),
        ensures
            span == self.width(),
    {
        proof {
            self.lemma_scaled();
        }
        self.qty.len() as u64 * self.tick as u64
    }

    /// The tick index of a price in the window, or `None` where the price is
    /// not on the grid: silently rounding into a neighbouring level would
    /// corrupt the book in the way nobody notices, so it is counted and
    /// refused.
    fn locate_placed(&mut self, price: i64) -> (index: Option<usize>)
        requires
            old(self).scaled(),
            old(self).off_grid < u64::MAX,
            price >= old(self).base || price - old(self).base + 0x1_0000_0000_0000_0000
                >= old(self).width(),
        ensures
            ({
                let inside = old(self).base <= price < old(self).base + old(self).width();
                let whole = (price - old(self).base) % (old(self).tick as int) == 0;
                &&& index is Some <==> inside && whole
                &&& index matches Some(i) ==> i == old(self).slot(price as int) && i
                    < old(self).qty@.len()
                &&& index is Some || !inside ==> *final(self) == *old(self)
                &&& inside && !whole ==> *final(self) == (Ladder {
                    off_grid: (old(self).off_grid + 1) as u64,
                    ..*old(self)
                })
            }),
    {
        proof {
            self.lemma_scaled();
        }
        let offset = self.offset_of(price);
        if offset >= self.span() {
            // Only reachable from the rebase replay, where a level that the
            // new window cannot hold is the caller's to account for.
            return None;
        }
        let index = self.index_of(offset);
        proof {
            let n = self.qty@.len();
            assert(0 <= index * self.tick <= n * self.tick) by (nonlinear_arith)
                requires
                    0 <= index <= n,
                    self.tick > 0,
            ;
            lemma_whole(offset as int, self.tick as int);
            lemma_multiple(index as int, self.tick as int);
            if offset as int % self.tick as int == 0 {
                self.lemma_price(price as int);
            }
        }
        // The multiply is exact only for on-grid offsets, so this check is both
        // the grid validation and the proof the index is right.
        if index * self.tick as u64 != offset {
            self.off_grid = self.off_grid + 1;
            return None;
        }
        Some(index as usize)
    }

    /// Whether index `a` is closer to the touch than index `b`.
    fn better(&self, a: usize, b: usize) -> (yes: bool)
        ensures
            yes == closer(self.descending, a as int, b as int),
    {
        if self.descending {
            a < b
        } else {
            a > b
        }
    }

    /// The nearest live index on the worse side of `from`, or `EMPTY`.
    fn next_worse(&self, from: usize) -> (found: usize)
        requires
            self.scaled(),
            self.occupied@.len() == (self.qty@.len() + 63) / 64,
            forall|i: int|
                #![trigger bitmap::bit(self.occupied@, i)]
                0 <= i < 64 * self.occupied@.len() ==> bitmap::bit(self.occupied@, i) == self.live(
                    i,
                ),
            from < self.qty@.len(),
        ensures
            found != EMPTY ==> self.live(found as int) && closer(
                self.descending,
                from as int,
                found as int,
            ),
            forall|i: int|
                #![trigger self.live(i)]
                self.live(i) && closer(self.descending, from as int, i) ==> found != EMPTY && (i
                    == found || closer(self.descending, found as int, i)),
    {
        proof {
            self.lemma_scaled();
            assert(self.qty@.len() == self.qty.len());
            assert forall|i: int| self.live(i) implies bitmap::bit(self.occupied@, i) by {}
        }
        let found = if self.descending {
            bitmap::next_above(&self.occupied, from)
        } else {
            bitmap::next_below(&self.occupied, from)
        };
        match found {
            Some(at) => at,
            None => EMPTY,
        }
    }

    /// Two ladders on one grid that differ in one slot hold levels that differ
    /// in one price.
    proof fn lemma_one_slot(&self, other: &Ladder, index: int, now: i64)
        requires
            self.tick > 0,
            0 <= index < self.qty@.len(),
            i64::MIN <= self.price_of(index) <= i64::MAX,
            other.base == self.base,
            other.tick == self.tick,
            other.qty@ == self.qty@.update(index, now),
        ensures
            now > 0 ==> other.levels() == self.levels().insert(self.price_of(index) as i64, now),
            now <= 0 ==> other.levels() == self.levels().remove(self.price_of(index) as i64),
    {
        let price = self.price_of(index) as i64;
        self.lemma_slot(index);
        assert forall|p: i64| p != price implies self.has_level(p as int) == other.has_level(
            p as int,
        ) && (self.has_level(p as int) ==> self.qty@[self.slot(p as int)] == other.qty@[other.slot(
            p as int,
        )]) by {
            if self.base <= p < self.base + self.width() && (p - self.base) % (self.tick as int)
                == 0 {
                self.lemma_price(p as int);
            }
        }
        if now > 0 {
            assert(other.levels() =~= self.levels().insert(price, now));
        } else {
            assert(other.levels() =~= self.levels().remove(price));
        }
    }

    /// The counters do not matter to what is held.
    proof fn lemma_counters(&self, other: &Ladder)
        requires
            self.wf(),
            *other == (Ladder {
                rebases: other.rebases,
                off_grid: other.off_grid,
                evicted: other.evicted,
                ..*self
            }),
        ensures
            other.wf(),
            other.levels() == self.levels(),
    {
        assert(other.levels() =~= self.levels());
        assert forall|i: int| #![trigger other.live(i)] other.live(i) implies self.live(i) by {}
        assert forall|i: int| #![trigger other.price_of(i)] other.live(i) implies other.price_of(i)
            <= i64::MAX by {
            assert(self.price_of(i) <= i64::MAX);
        }
        assert forall|i: int|
            #![trigger bitmap::bit(other.occupied@, i)]
            0 <= i < 64 * other.occupied@.len() implies bitmap::bit(other.occupied@, i)
            == other.live(i) by {
            assert(bitmap::bit(self.occupied@, i) == self.live(i));
        }
    }

    /// Stores a quantity and keeps occupancy, depth and touch with it.
    fn transition(&mut self, index: usize, now: i64)
        requires
            old(self).wf(),
            index < old(self).qty@.len(),
            now >= 0,
            i64::MIN < old(self).base,
            old(self).price_of(index as int) <= i64::MAX,
        ensures
            final(self).wf(),
            ({
                let price = old(self).price_of(index as int) as i64;
                let levels = if now > 0 {
                    old(self)@.levels.insert(price, now)
                } else {
                    old(self)@.levels.remove(price)
                };
                final(self)@ == (LadderState { levels, ..old(self)@ })
            }),
            final(self).base == old(self).base,
            final(self).tick == old(self).tick,
            final(self).off_grid == old(self).off_grid,
            final(self).evicted == old(self).evicted,
            final(self).rebases == old(self).rebases,
            final(self).qty@.len() == old(self).qty@.len(),
    {
        proof {
            self.lemma_scaled();
            self.lemma_slot(index as int);
            self.lemma_levels(index as int);
        }
        let was = self.qty[index];
        self.qty[index] = now;
        let ghost price = old(self).price_of(index as int) as i64;
        proof {
            old(self).lemma_one_slot(self, index as int, now);
            assert(old(self).levels().dom().contains(price) == (was > 0));
            assert forall|i: int| self.live(i) == (if i == index {
                now > 0
            } else {
                old(self).live(i)
            }) by {}
            assert forall|i: int| self.live(i) implies #[trigger] self.price_of(i) <= i64::MAX by {
                if i != index {
                    assert(old(self).live(i));
                    assert(old(self).price_of(i) <= i64::MAX);
                }
            }
        }
        if (was > 0) == (now > 0) {
            // The quantity changed, the occupancy did not.
            proof {
                if now > 0 {
                    assert(old(self).levels().dom().insert(price) =~= old(self).levels().dom());
                } else {
                    assert(old(self).levels().dom().remove(price) =~= old(self).levels().dom());
                }
                assert forall|i: int| #![trigger self.live(i)] self.live(i) implies old(self).live(
                    i,
                ) by {}
            }
            return;
        }
        let ghost mut before = *self;
        if now > 0 {
            bitmap::set_bit(&mut self.occupied, index);
            proof {
                old(self).lemma_valid();
                lemma_depth_bounded(old(self)@);
            }
            self.len = self.len + 1;
            if self.best == EMPTY || self.better(index, self.best) {
                self.best = index;
            }
        } else {
            bitmap::clear_bit(&mut self.occupied, index);
            self.len = self.len - 1;
            proof {
                before = *self;
            }
            if index == self.best {
                self.best = self.next_worse(index);
            }
        }
        proof {
            assert forall|i: int| #![trigger self.live(i)] self.live(i) == (if i == index {
                now > 0
            } else {
                old(self).live(i)
            }) && self.live(i) == before.live(i) by {}
            assert forall|i: int| #![trigger self.price_of(i)] self.live(i) implies self.price_of(i)
                <= i64::MAX by {
                if i != index {
                    assert(old(self).price_of(i) <= i64::MAX);
                }
            }
            assert forall|i: int|
                #![trigger bitmap::bit(self.occupied@, i)]
                0 <= i < 64 * self.occupied@.len() implies bitmap::bit(self.occupied@, i)
                == self.live(i) by {
                assert(bitmap::bit(old(self).occupied@, i) == old(self).live(i));
            }
            assert forall|i: int| #![trigger self.live(i)] self.live(i) implies self.best != EMPTY
                && (i == self.best || closer(self.descending, self.best as int, i)) by {
                assert(before.live(i));
                assert(i == index || old(self).live(i));
            }
            old(self).lemma_one_slot(self, index as int, now);
        }
    }

    fn price_at(&self, index: usize) -> (price: i64)
        requires
            self.wf(),
            self.live(index as int),
        ensures
            price == self.price_of(index as int),
    {
        proof {
            self.lemma_scaled();
            self.lemma_slot(index as int);
            assert(self.price_of(index as int) <= i64::MAX);
        }
        self.base + index as i64 * self.tick
    }

    /// Visits live levels from the touch outward.
    pub fn for_each_from_touch<V: Visit>(&self, visit: &mut V)
        requires
            self.wf(),
        ensures
            ({
                let before = old(visit).visited();
                let after = final(visit).visited();
                &&& after.len() >= before.len()
                &&& after.take(before.len() as int) == before
                &&& is_walk(self@.levels, self@.descending, after.skip(before.len() as int))
            }),
    {
        let ghost mut walk = Seq::<(i64, i64)>::empty();
        let ghost mut slots = Seq::<int>::empty();
        let mut at: usize = self.best;
        assert(visit.visited() =~= old(visit).visited() + walk);
        while at != EMPTY
            invariant
                self.wf(),
                visit.visited() == old(visit).visited() + walk,
                at != EMPTY ==> self.live(at as int),
                walk.len() == slots.len(),
                forall|k: int|
                    #![trigger slots[k]]
                    0 <= k < slots.len() ==> {
                        &&& self.live(slots[k])
                        &&& walk[k] == (self.price_of(slots[k]) as i64, self.qty@[slots[k]])
                        &&& at != EMPTY ==> closer(self.descending, slots[k], at as int)
                    },
                forall|j: int, k: int|
                    #![trigger slots[j], slots[k]]
                    0 <= j < k < slots.len() ==> closer(self.descending, slots[j], slots[k]),
                forall|i: int|
                    #![trigger self.live(i)]
                    self.live(i) ==> slots.contains(i) || at != EMPTY && (i == at || closer(
                        self.descending,
                        at as int,
                        i,
                    )),
            decreases
                    if at == EMPTY {
                        0
                    } else if self.descending {
                        self.qty@.len() - at
                    } else {
                        at + 1
                    },
        {
            let price = self.price_at(at);
            let qty = self.qty[at];
            visit.visit(price, qty);
            let next = self.next_worse(at);
            proof {
                let before = slots;
                assert(old(visit).visited() + walk.push((price, qty)) =~= (old(visit).visited()
                    + walk).push((price, qty)));
                walk = walk.push((price, qty));
                slots = slots.push(at as int);
                assert forall|i: int| self.live(i) implies slots.contains(i) || next != EMPTY && (i
                    == next || closer(self.descending, next as int, i)) by {
                    if before.contains(i) {
                        let k = choose|k: int| 0 <= k < before.len() && before[k] == i;
                        assert(slots[k] == i);
                    } else if i == at {
                        assert(slots[slots.len() - 1] == i);
                    }
                }
            }
            at = next;
        }
        proof {
            self.lemma_scaled();
            assert forall|k: int| 0 <= k < walk.len() implies self.levels().contains_pair(
                walk[k].0,
                walk[k].1,
            ) by {
                let i = slots[k];
                self.lemma_slot(i);
                assert(self.price_of(i) <= i64::MAX);
                self.lemma_levels(i);
            }
            assert forall|j: int, k: int| 0 <= j < k < walk.len() implies closer(
                self.descending,
                walk[j].0 as int,
                walk[k].0 as int,
            ) by {
                let a = slots[j];
                let b = slots[k];
                self.lemma_slot(a);
                self.lemma_slot(b);
                assert(self.price_of(a) <= i64::MAX && self.price_of(b) <= i64::MAX);
                assert(a < b ==> a * self.tick < b * self.tick) by (nonlinear_arith)
                    requires
                        self.tick > 0,
                ;
                assert(a > b ==> a * self.tick > b * self.tick) by (nonlinear_arith)
                    requires
                        self.tick > 0,
                ;
            }
            assert forall|price: i64| self.levels().dom().contains(price) implies exists|k: int|
                #![trigger walk[k]]
                0 <= k < walk.len() && walk[k].0 == price by {
                self.lemma_price(price as int);
                let i = self.slot(price as int);
                assert(self.live(i));
                let k = choose|k: int| 0 <= k < slots.len() && slots[k] == i;
                assert(walk[k].0 == price);
            }
            let before = old(visit).visited();
            assert(visit.visited().take(before.len() as int) =~= before);
            assert(visit.visited().skip(before.len() as int) =~= walk);
        }
    }

    /// Moves the window to take in `price`, carrying live levels across.
    ///
    /// Centring on the new price would discard half the window's coverage every
    /// time. Moving just past the breached edge keeps three quarters of it, and
    /// the quarter of headroom is hysteresis: without it a price oscillating
    /// across the boundary would move the window on every message.
    fn rebase(&mut self, price: i64)
        requires
            old(self).wf(),
            old(self)@.admits(price as int),
            !old(self)@.in_window(price as int),
            !old(self)@.refuses(price as int),
        ensures
            final(self).wf(),
            final(self)@ == old(self)@.moved(old(self)@.new_base(price as int)),
    {
        proof {
            self.lemma_scaled();
            self.lemma_valid();
            lemma_window_reaches(self@, price as int);
            lemma_window_parts(self@);
        }
        let width = self.qty.len() as i64;
        let span = width * self.tick;
        // A quarter window of headroom past the edge that was breached.
        let headroom = (width / 4) * self.tick;
        let new_base: i64 = if self.base == i64::MIN {
            price - (width / 2) * self.tick  // first placement: centre, nothing to preserve

        } else if price < self.base {
            // Snap to the existing grid so on-grid prices stay on it.
            let distance = self.base as i128 - (price - headroom) as i128;
            proof {
                lemma_whole(distance as int, self.tick as int);
            }
            (self.base as i128 - (distance / self.tick as i128) * self.tick as i128) as i64
        } else {
            let distance = price - span + headroom - self.base;
            proof {
                lemma_whole(distance as int, self.tick as int);
            }
            self.base + (distance / self.tick) * self.tick
        };
        assert(new_base == self@.new_base(price as int));
        let ghost moved = old(self)@.moved(new_base as int);
        if self.len > 0 {
            let mut live: Vec<(i64, i64)> = Vec::new();
            self.for_each_from_touch(&mut live);
            proof {
                assert(live@.skip(0) =~= live@);
                lemma_walk_len(self@.levels, self@.descending, live@);
            }
            self.qty = vec![0i64; self.qty.len()];
            self.occupied = bitmap::empty(self.qty.len());
            self.len = 0;
            self.best = EMPTY;
            self.base = new_base;
            proof {
                assert(self.scaled());
                assert forall|i: int| !self.live(i) by {}
                assert forall|p: i64| !self.levels().dom().contains(p) by {
                    if self.levels().dom().contains(p) {
                        self.lemma_price(p as int);
                        assert(self.live(self.slot(p as int)));
                    }
                }
                assert(self.levels() =~= Map::empty());
                assert(self.wf());
            }
            let mut next: usize = 0;
            while next < live.len()
                invariant
                    self.wf(),
                    next <= live@.len(),
                    is_walk(old(self)@.levels, old(self)@.descending, live@),
                    old(self).wf(),
                    old(self)@.valid(),
                    old(self)@.admits(price as int),
                    !old(self)@.in_window(price as int),
                    !old(self)@.refuses(price as int),
                    new_base == old(self)@.new_base(price as int),
                    old(self).base != i64::MIN,
                    live@.len() == old(self)@.levels.dom().len(),
                    self@ == (LadderState {
                        base: new_base as int,
                        levels: self@.levels,
                        evicted: (old(self).evicted + next - self.len) as nat,
                        ..old(self)@
                    }),
                    self.len <= next,
                    forall|k: i64|
                        #![trigger self@.levels.dom().contains(k)]
                        self@.levels.dom().contains(k) ==> {
                            &&& old(self)@.levels.dom().contains(k)
                            &&& old(self)@.levels[k] == self@.levels[k]
                            &&& self@.in_window(k as int)
                            &&& exists|j: int| #![trigger live@[j]] 0 <= j < next && live@[j].0 == k
                        },
                    forall|j: int|
                        #![trigger live@[j]]
                        0 <= j < next && self@.in_window(live@[j].0 as int)
                            ==> self@.levels.dom().contains(live@[j].0),
                decreases live@.len() - next,
            {
                let (at, qty) = live[next];
                proof {
                    lemma_window_reaches(old(self)@, price as int);
                    self.lemma_scaled();
                    assert(live@[next as int] == (at, qty));
                    assert(old(self)@.levels.contains_pair(at, qty));
                    assert(old(self)@.on_grid(at as int));
                    let whole = new_base - old(self).base;
                    lemma_whole(whole as int, self.tick as int);
                    let steps = whole as int / self.tick as int;
                    lemma_same_grid(at - new_base, steps, self.tick as int);
                    assert((at - new_base) % self.tick as int == 0);
                }
                let ghost prior = *self;
                if let Some(index) = self.locate_placed(at) {
                    proof {
                        self.lemma_price(at as int);
                        if self@.levels.dom().contains(at) {
                            let j = choose|j: int|
                                #![trigger live@[j]]
                                0 <= j < next && live@[j].0 == at;
                            assert(closer(
                                old(self)@.descending,
                                live@[j].0 as int,
                                live@[next as int].0 as int,
                            ));
                        }
                    }
                    self.transition(index, qty);
                    assert(self@.levels == prior@.levels.insert(at, qty));
                } else {
                    // Further from the touch than the window is wide: stale
                    // depth, dropped and counted.
                    proof {
                        assert(old(self).evicted + live@.len() <= u64::MAX);
                    }
                    self.evicted = self.evicted + 1;
                    proof {
                        prior.lemma_counters(self);
                    }
                }
                next = next + 1;
            }
            proof {
                assert(self@.levels =~= moved.levels) by {
                    assert forall|k: i64| moved.levels.dom().contains(k) implies
                        self@.levels.dom().contains(k) by {
                        let j = choose|j: int|
                            #![trigger live@[j]]
                            0 <= j < live@.len() && live@[j].0 == k;
                        assert(self@.in_window(live@[j].0 as int));
                    }
                }
            }
        } else {
            self.base = new_base;
            proof {
                assert(old(self).levels() =~= Map::empty());
                assert forall|i: int| !old(self).live(i) by {
                    if old(self).live(i) {
                        old(self).lemma_slot(i);
                        assert(old(self).price_of(i) <= i64::MAX);
                        old(self).lemma_levels(i);
                    }
                }
                assert forall|i: int| !self.live(i) by {
                    assert(!old(self).live(i));
                }
                assert forall|p: i64| !self.levels().dom().contains(p) by {
                    if self.levels().dom().contains(p) {
                        self.lemma_price(p as int);
                        assert(self.live(self.slot(p as int)));
                    }
                }
                assert(self.levels() =~= Map::empty());
                assert(moved.levels =~= Map::empty());
            }
        }
        let ghost prior = *self;
        self.rebases = self.rebases + 1;
        proof {
            prior.lemma_counters(self);
        }
    }

    /// Whether a price lies on the grid of a placed window. A divide: only for
    /// prices outside the window.
    fn on_grid(&self, price: i64) -> (yes: bool)
        requires
            self.tick > 0,
        ensures
            yes == self@.on_grid(price as int),
    {
        let apart: i128 = if price >= self.base {
            price as i128 - self.base as i128
        } else {
            self.base as i128 - price as i128
        };
        proof {
            let t = self.tick as int;
            let d = price - self.base;
            lemma_whole(d, t);
            lemma_whole(-d, t);
            lemma_multiple(-(d / t), t);
            lemma_multiple(-((-d) / t), t);
            assert(-(d / t) * t == -((d / t) * t)) by (nonlinear_arith);
            assert(-((-d) / t) * t == -(((-d) / t) * t)) by (nonlinear_arith);
        }
        apart % self.tick as i128 == 0
    }

    /// Where `price` sits, recentring the window if it falls outside. `None`
    /// for a price off the grid, which is counted and moves nothing.
    fn locate(&mut self, price: i64) -> (index: Option<usize>)
        requires
            old(self).wf(),
            old(self)@.admits(price as int),
        ensures
            final(self).wf(),
            match index {
                Some(i) => {
                    &&& !old(self)@.refuses(price as int)
                    &&& i < final(self).qty@.len()
                    &&& final(self).price_of(i as int) == price
                    &&& final(self).base > i64::MIN
                    &&& final(self)@ == old(self)@.reaching(price as int)
                },
                None => {
                    &&& old(self)@.refuses(price as int)
                    &&& final(self)@ == (LadderState {
                        off_grid: old(self)@.off_grid + 1,
                        ..old(self)@
                    })
                },
            },
    {
        proof {
            self.lemma_scaled();
            self.lemma_valid();
        }
        if self.offset_of(price) >= self.span() {
            assert(!self@.in_window(price as int));
            if self.base != i64::MIN && !self.on_grid(price) {
                self.off_grid = self.off_grid + 1;
                proof {
                    old(self).lemma_counters(self);
                }
                return None;
            }
            proof {
                lemma_window_reaches(self@, price as int);
            }
            self.rebase(price);
        }
        let ghost prior = *self;
        proof {
            prior.lemma_scaled();
            if prior@.on_grid(price as int) {
                prior.lemma_price(price as int);
            }
        }
        let index = self.locate_placed(price);
        proof {
            prior.lemma_counters(self);
        }
        index
    }

    /// Adds signed quantity at a price; a level reaching zero is removed.
    pub fn add(&mut self, price: i64, delta: i64)
        requires
            old(self).wf(),
            old(self)@.admits_add(price, delta),
        ensures
            final(self).wf(),
            final(self)@ == old(self)@.add(price, delta),
    {
        if let Some(index) = self.locate(price) {
            proof {
                self.lemma_scaled();
                self.lemma_slot(index as int);
                self.lemma_levels(index as int);
            }
            let was = self.qty[index];
            let sum = was + delta;
            let now: i64 = if sum > 0 {
                sum
            } else {
                0
            };
            self.transition(index, now);
        }
    }

    /// Sets the absolute quantity at a price; zero removes.
    pub fn set(&mut self, price: i64, qty: i64)
        requires
            old(self).wf(),
            old(self)@.admits(price as int),
        ensures
            final(self).wf(),
            final(self)@ == old(self)@.set(price, qty),
    {
        if let Some(index) = self.locate(price) {
            let now: i64 = if qty > 0 {
                qty
            } else {
                0
            };
            self.transition(index, now);
        }
    }

    /// The touch: best price and its quantity.
    #[must_use]
    pub fn best(&self) -> (touch: Option<(i64, i64)>)
        requires
            self.wf(),
        ensures
            touch == self::touch(self@.levels, self@.descending),
            match touch {
                Some(touch) => is_touch(self@.levels, self@.descending, touch),
                None => self@.levels =~= Map::empty(),
            },
    {
        proof {
            self.lemma_scaled();
        }
        if self.best == EMPTY {
            proof {
                assert forall|price: i64| !self.levels().dom().contains(price) by {
                    if self.levels().dom().contains(price) {
                        self.lemma_price(price as int);
                        assert(self.live(self.slot(price as int)));
                    }
                }
            }
            return None;
        }
        let price = self.price_at(self.best);
        proof {
            self.lemma_slot(self.best as int);
            self.lemma_levels(self.best as int);
            assert forall|other: i64|
                #![trigger self.levels().dom().contains(other)]
                self.levels().dom().contains(other) && other != price implies closer(
                self.descending,
                price as int,
                other as int,
            ) by {
                self.lemma_price(other as int);
                let a = self.best as int;
                let b = self.slot(other as int);
                assert(self.live(b));
                assert(a < b ==> a * self.tick < b * self.tick) by (nonlinear_arith)
                    requires
                        self.tick > 0,
                ;
                assert(a > b ==> a * self.tick > b * self.tick) by (nonlinear_arith)
                    requires
                        self.tick > 0,
                ;
            }
        }
        let found = (price, self.qty[self.best]);
        proof {
            assert(is_touch(self@.levels, self@.descending, found));
            lemma_touch_is(self@.levels, self@.descending, found);
        }
        Some(found)
    }

    /// Live levels held.
    #[must_use]
    pub fn depth(&self) -> (depth: usize)
        requires
            self.wf(),
        ensures
            depth == self@.levels.dom().len(),
    {
        self.len
    }

    /// Windows recentred since construction.
    #[must_use]
    pub fn rebases(&self) -> (count: u64)
        ensures
            count == self@.rebases,
    {
        self.rebases
    }

    /// Prices refused for not lying on the tick grid.
    #[must_use]
    pub fn off_grid(&self) -> (count: u64)
        ensures
            count == self@.off_grid,
    {
        self.off_grid
    }

    /// Levels dropped by a rebase for sitting a whole window from the market.
    /// A climbing count means the window is too narrow for the instrument.
    #[must_use]
    pub fn evicted(&self) -> (count: u64)
        ensures
            count == self@.evicted,
    {
        self.evicted
    }

    /// Whether [`Ladder::set`] can take `price`.
    #[must_use]
    pub fn admits(&self, price: i64) -> (yes: bool)
        requires
            self.wf(),
        ensures
            yes == self@.admits(price as int),
    {
        proof {
            self.lemma_scaled();
            self.lemma_valid();
            lemma_depth_bounded(self@);
            assert(0 <= self.qty@.len() / 4 * self.tick <= self.width()) by (nonlinear_arith)
                requires
                    self.width() == self.qty@.len() * self.tick,
                    self.tick > 0,
            ;
        }
        if self.rebases == u64::MAX || self.off_grid == u64::MAX || self.evicted > u64::MAX
            - self.len as u64 {
            return false;
        }
        let at = price;
        let base = self.base as i128;
        let price = price as i128;
        let span = self.span() as i128;
        let headroom = (self.qty.len() / 4) as i128 * self.tick as i128;
        if self.base == i64::MIN {
            price >= base + span
        } else if price >= base && price < base + span || price - base >= i64::MIN as i128
            && !self.on_grid(at) {
            true
        } else if price < base {
            let target = price - headroom;
            proof {
                lemma_whole(base - target, self.tick as int);
            }
            target >= i64::MIN as i128 && target - base >= i64::MIN as i128 && base - ((base
                - target) / self.tick as i128) * self.tick as i128 > i64::MIN as i128
        } else {
            price - span + headroom - base <= i64::MAX as i128
        }
    }

    /// Whether [`Ladder::add`] can take `delta` at `price`.
    #[must_use]
    pub fn admits_add(&self, price: i64, delta: i64) -> (yes: bool)
        requires
            self.wf(),
        ensures
            yes == self@.admits_add(price, delta),
    {
        if !self.admits(price) {
            return false;
        }
        proof {
            self.lemma_scaled();
            self.lemma_valid();
        }
        let offset = self.offset_of(price);
        if price < self.base || offset >= self.span() {
            assert(self@.reaching(price as int).quantity(price) == 0);
            return true;
        }
        let tick = self.tick as u64;
        if offset % tick != 0 {
            return true;
        }
        let index = offset / tick;
        proof {
            self.lemma_price(price as int);
            self.lemma_levels(index as int);
        }
        self.qty[index as usize] as i128 + delta as i128 <= i64::MAX as i128
    }
}

// ----------------------------------------------------------- what follows of it

/// The first level of a walk is the touch.
pub proof fn lemma_walk_starts_at_touch(
    levels: Map<i64, i64>,
    descending: bool,
    walk: Seq<(i64, i64)>,
)
    requires
        is_walk(levels, descending, walk),
        walk.len() > 0,
    ensures
        is_touch(levels, descending, walk[0]),
{
    assert forall|price: i64|
        #![trigger levels.dom().contains(price)]
        levels.dom().contains(price) && price != walk[0].0 implies closer(
        descending,
        walk[0].0 as int,
        price as int,
    ) by {
        let i = choose|i: int| #![trigger walk[i]] 0 <= i < walk.len() && walk[i].0 == price;
        assert(closer(descending, walk[0].0 as int, walk[i].0 as int));
    }
}

/// Levels have one touch.
pub proof fn lemma_touch_unique(
    levels: Map<i64, i64>,
    descending: bool,
    a: (i64, i64),
    b: (i64, i64),
)
    requires
        is_touch(levels, descending, a),
        is_touch(levels, descending, b),
    ensures
        a == b,
{
    assert(levels.dom().contains(a.0) && levels.dom().contains(b.0));
}

/// The touch is the one level that has the touch's property.
pub proof fn lemma_touch_is(levels: Map<i64, i64>, descending: bool, best: (i64, i64))
    requires
        is_touch(levels, descending, best),
    ensures
        touch(levels, descending) == Some(best),
{
    let chosen = choose|best: (i64, i64)| is_touch(levels, descending, best);
    lemma_touch_unique(levels, descending, chosen, best);
}

/// No level, no touch.
pub proof fn lemma_no_touch(descending: bool)
    ensures
        touch(Map::empty(), descending) is None,
{
    assert forall|best: (i64, i64)| !is_touch(Map::empty(), descending, best) by {
        assert(!Map::<i64, i64>::empty().contains_pair(best.0, best.1));
    }
}

/// A fresh ladder is valid.
pub proof fn lemma_empty_valid(band: Band, descending: bool)
    requires
        band.fits(),
    ensures
        LadderState::empty(band, descending).valid(),
{
    lemma_band(band);
    let s = scale(band.ticks as nat) as nat;
    vstd::arithmetic::power2::lemma2_to64_rest();
    if s < 61 {
        vstd::arithmetic::power2::lemma_pow2_strictly_increases(s, 61);
    }
}

/// What a valid ladder holds stays valid.
pub proof fn lemma_put_valid(state: LadderState, price: i64, qty: int)
    requires
        state.valid(),
        state.admits(price as int),
        !state.refuses(price as int) ==> qty <= i64::MAX,
    ensures
        state.put(price, qty).valid(),
        state.put(price, qty).evicted >= state.evicted,
        state.put(price, qty).off_grid >= state.off_grid,
        !state.refuses(price as int) ==> {
            &&& state.reaching(price as int).valid()
            &&& state.reaching(price as int).in_window(price as int)
            &&& state.reaching(price as int).on_grid(price as int)
        },
{
    let placed = state.reaching(price as int);
    if !state.refuses(price as int) && !state.in_window(price as int) {
        lemma_window_reaches(state, price as int);
        let base = state.new_base(price as int);
        if state.base != i64::MIN {
            lemma_whole(base - state.base, state.tick);
            let steps = (base - state.base) / state.tick;
            assert forall|p: i64| placed.levels.dom().contains(p) implies placed.on_grid(
                p as int,
            ) by {
                assert(state.levels.dom().contains(p));
                lemma_same_grid(p - base, steps, state.tick);
            }
        }
        vstd::set_lib::lemma_len_subset(placed.levels.dom(), state.levels.dom());
    }
    if !state.refuses(price as int) {
        assert(placed.valid());
        let after = state.put(price, qty);
        assert forall|p: i64|
            #![trigger after.levels.dom().contains(p)]
            after.levels.dom().contains(p) implies {
            &&& after.levels[p] > 0
            &&& after.in_window(p as int)
            &&& after.on_grid(p as int)
        } by {
            assert(p == price || placed.levels.dom().contains(p));
        }
    }
}

/// Where nothing is evicted, a price on the grid is stored as a plain map
/// would store it, whether or not the window moved.
pub proof fn lemma_nothing_evicted(state: LadderState, price: i64, qty: int)
    requires
        state.valid(),
        state.admits(price as int),
        state.put(price, qty).evicted == state.evicted,
        state.put(price, qty).off_grid == state.off_grid,
    ensures
        qty > 0 ==> state.put(price, qty).levels == state.levels.insert(price, qty as i64),
        qty <= 0 ==> state.put(price, qty).levels == state.levels.remove(price),
        state.reaching(price as int).levels == state.levels,
{
    let placed = state.reaching(price as int);
    if !state.in_window(price as int) {
        let held = state.levels.dom();
        let kept = placed.levels.dom();
        assert(kept.subset_of(held));
        vstd::set_lib::lemma_len_subset(kept, held);
        vstd::set_lib::lemma_subset_equality(kept, held);
        assert(placed.levels =~= state.levels);
    }
}

/// A price off the grid, wherever it lies, changes nothing but its count.
pub proof fn lemma_off_grid_refused(state: LadderState, price: i64, qty: i64)
    requires
        state.base != i64::MIN,
        !state.on_grid(price as int),
    ensures
        state.set(price, qty) == (LadderState { off_grid: state.off_grid + 1, ..state }),
        state.add(price, qty) == (LadderState { off_grid: state.off_grid + 1, ..state }),
{
}

/// The window finds its place from the first price, whatever its width: that
/// price is taken, and lies on the grid from then on.
pub proof fn lemma_first_price_taken(state: LadderState, price: i64, qty: i64)
    requires
        state.valid(),
        state.base == i64::MIN,
        state.admits(price as int),
        qty > 0,
    ensures
        ({
            let after = state.set(price, qty);
            &&& after.levels == Map::<i64, i64>::empty().insert(price, qty)
            &&& after.off_grid == state.off_grid
            &&& after.evicted == state.evicted
            &&& after.on_grid(price as int)
            &&& after.base != i64::MIN
        }),
{
    lemma_window_reaches(state, price as int);
    let placed = state.reaching(price as int);
    assert(placed.levels =~= Map::empty());
}

/// Once laid, the grid never moves: what is a whole number of ticks away from
/// a price on it stays so, whatever comes after.
pub proof fn lemma_grid_stays(state: LadderState, price: i64, qty: int, other: int)
    requires
        state.valid(),
        state.base != i64::MIN,
        state.admits(price as int),
    ensures
        state.put(price, qty).on_grid(other) == state.on_grid(other),
{
    if !state.refuses(price as int) && !state.in_window(price as int) {
        lemma_window_reaches(state, price as int);
        let base = state.new_base(price as int);
        lemma_whole(base - state.base, state.tick);
        lemma_same_grid(other - base, (base - state.base) / state.tick, state.tick);
    }
}

/// Moving the window for `price` keeps every level less than three quarters of
/// a window away from it.
pub proof fn lemma_move_keeps_depth(state: LadderState, price: i64, level: i64)
    requires
        state.valid(),
        state.admits(price as int),
        !state.refuses(price as int),
        state.levels.dom().contains(level),
        price - level < state.span() - state.headroom(),
        level - price < state.span() - state.headroom(),
    ensures
        state.reaching(price as int).levels.contains_pair(level, state.levels[level]),
{
    let t = state.tick;
    if !state.in_window(price as int) {
        lemma_window_reaches(state, price as int);
        let headroom = state.headroom();
        if price < state.base {
            lemma_whole(state.base - (price - headroom), t);
        } else {
            lemma_whole(price - state.span() + headroom - state.base, t);
        }
    }
}

/// After the window has moved for `price`, prices within a quarter window of it,
/// less one tick, do not move it again.
pub proof fn lemma_hysteresis(state: LadderState, price: i64, near: i64)
    requires
        state.valid(),
        state.admits(price as int),
        !state.in_window(price as int),
        !state.refuses(price as int),
        price - near <= state.headroom() - state.tick,
        near - price <= state.headroom() - state.tick,
    ensures
        state.reaching(price as int).in_window(near as int),
        state.reaching(price as int).reaching(near as int) == state.reaching(price as int),
{
    let t = state.tick;
    let span = state.span();
    let headroom = state.headroom();
    lemma_window_reaches(state, price as int);
    lemma_window_parts(state);
    if state.base == i64::MIN {
    } else if price < state.base {
        lemma_whole(state.base - (price - headroom), t);
    } else {
        lemma_whole(price - span + headroom - state.base, t);
    }
}

/// The window of a ladder that only ever saw prices from zero up.
pub open spec fn quoted_from_zero(state: LadderState) -> bool {
    state.base == i64::MIN || -state.half() <= state.base <= i64::MAX - state.half()
}

/// A ladder that only sees prices from zero up takes every one of them, for as
/// long as its counters have room.
pub proof fn lemma_prices_from_zero_admitted(state: LadderState, price: i64, qty: int)
    requires
        state.valid(),
        quoted_from_zero(state),
        price >= 0,
        state.rebases < u64::MAX,
        state.off_grid < u64::MAX,
        state.evicted + state.levels.dom().len() <= u64::MAX,
    ensures
        state.admits(price as int),
        quoted_from_zero(state.put(price, qty)),
{
    let t = state.tick;
    let span = state.span();
    let headroom = state.headroom();
    lemma_window_parts(state);
    if state.base == i64::MIN {
    } else if price < state.base {
        lemma_whole(state.base - (price - headroom), t);
    } else {
        lemma_whole(price - span + headroom - state.base, t);
    }
}

} // verus!
