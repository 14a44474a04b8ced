//! The values of a JSON line: strings, decimals in strings, words, numbers,
//! levels, and whatever else may stand behind a key.

use vstd::prelude::*;

use crate::feed::json as wire_format;
use crate::feed::json::Part;
use crate::feed::text as digits_of;
use crate::feed::text::stands;
use crate::feed::{Event, Kind, Side};
use crate::promises::text;
use crate::promises::text::{digits, worth, written};

verus! {

/// Whether every byte is a blank that may stand between tokens.
pub open spec fn blank(s: Seq<u8>) -> bool {
    forall|i: int|
        0 <= i < s.len() ==> #[trigger] s[i] == 0x20 || s[i] == 0x09 || s[i] == 0x0d
}

/// Whether text can stand in quotes as it is.
pub open spec fn plain(s: Seq<u8>) -> bool {
    forall|i: int| 0 <= i < s.len() ==> #[trigger] s[i] != 0x22 && s[i] != 0x5c
}

/// Text in quotes.
pub open spec fn quoted(s: Seq<u8>) -> Seq<u8> {
    seq![0x22u8] + (s + seq![0x22u8])
}

pub proof fn lemma_blanks_skipped(line: Seq<u8>, at: int, s: Seq<u8>)
    requires
        stands(line, at, s),
        blank(s),
        at + s.len() < line.len() ==> line[at + s.len()] != 0x20 && line[at + s.len()] != 0x09
            && line[at + s.len()] != 0x0d,
    ensures
        wire_format::skip_blanks(line, at) == at + s.len(),
    decreases s.len(),
{
    if s.len() > 0 {
        digits_of::lemma_stands_at(line, at, s, 0);
        let rest = s.skip(1);
        assert(s =~= seq![s[0]] + rest);
        digits_of::lemma_stands_split(line, at, seq![s[0]], rest);
        lemma_blanks_skipped(line, at + 1, rest);
    }
}

/// One byte behind blanks.
pub proof fn lemma_byte_read(line: Seq<u8>, at: int, s: Seq<u8>, byte: u8)
    requires
        stands(line, at, s + seq![byte]),
        blank(s),
        byte != 0x20 && byte != 0x09 && byte != 0x0d,
    ensures
        wire_format::skip_blanks(line, at) == at + s.len(),
        line[at + s.len()] == byte,
        at + s.len() < line.len(),
        wire_format::expect_spec(line, at, byte) == Some((at + s.len() + 1) as int),
{
    digits_of::lemma_stands_split(line, at, s, seq![byte]);
    digits_of::lemma_stands_at(line, (at + s.len()) as int, seq![byte], 0);
    lemma_blanks_skipped(line, at, s);
}

proof fn lemma_string_ends(line: Seq<u8>, at: int, s: Seq<u8>)
    requires
        stands(line, at, s + seq![0x22u8]),
        plain(s),
    ensures
        wire_format::string_end(line, at) == at + s.len(),
        line[at + s.len()] == 0x22,
        at + s.len() < line.len(),
    decreases s.len(),
{
    digits_of::lemma_stands_split(line, at, s, seq![0x22u8]);
    digits_of::lemma_stands_at(line, (at + s.len()) as int, seq![0x22u8], 0);
    if s.len() > 0 {
        digits_of::lemma_stands_at(line, at, s, 0);
        let rest = s.skip(1);
        assert(s + seq![0x22u8] =~= seq![s[0]] + (rest + seq![0x22u8]));
        digits_of::lemma_stands_split(line, at, seq![s[0]], rest + seq![0x22u8]);
        lemma_string_ends(line, at + 1, rest);
    }
}

/// Text in quotes behind blanks is read as it stands.
pub proof fn lemma_string_read(line: Seq<u8>, at: int, gap: Seq<u8>, s: Seq<u8>)
    requires
        stands(line, at, gap + quoted(s)),
        blank(gap),
        plain(s),
    ensures
        wire_format::string_spec(line, at) == Some(
            (s, (at + gap.len() + quoted(s).len()) as int),
        ),
{
    let from = (at + gap.len() + 1) as int;
    assert(gap + quoted(s) =~= (gap + seq![0x22u8]) + (s + seq![0x22u8]));
    digits_of::lemma_stands_split(line, at, gap + seq![0x22u8], s + seq![0x22u8]);
    lemma_byte_read(line, at, gap, 0x22);
    lemma_string_ends(line, from, s);
    digits_of::lemma_stands_split(line, from, s, seq![0x22u8]);
}

/// Text with an escape in it is not read as it stands, nor at all.
pub proof fn lemma_string_not_read(line: Seq<u8>, at: int, gap: Seq<u8>, s: Seq<u8>)
    requires
        stands(line, at, gap + quoted(s)),
        blank(gap),
        escaped(s),
        !plain(s),
    ensures
        wire_format::string_spec(line, at) is None,
{
    let from = (at + gap.len() + 1) as int;
    assert(gap + quoted(s) =~= (gap + seq![0x22u8]) + (s + seq![0x22u8]));
    digits_of::lemma_stands_split(line, at, gap + seq![0x22u8], s + seq![0x22u8]);
    lemma_byte_read(line, at, gap, 0x22);
    digits_of::lemma_stands_split(line, from, s, seq![0x22u8]);
    lemma_escape_ends(line, from, s);
}

proof fn lemma_escape_ends(line: Seq<u8>, at: int, s: Seq<u8>)
    requires
        stands(line, at, s),
        escaped(s),
        !plain(s),
    ensures
        at <= wire_format::string_end(line, at) < at + s.len(),
        line[wire_format::string_end(line, at)] == 0x5c,
    decreases s.len(),
{
    digits_of::lemma_stands_at(line, at, s, 0);
    if s[0] != 0x5c {
        let rest = s.skip(1);
        assert(s =~= seq![s[0]] + rest);
        digits_of::lemma_stands_split(line, at, seq![s[0]], rest);
        assert(!plain(rest)) by {
            let i = choose|i: int| 0 <= i < s.len() && !(#[trigger] s[i] != 0x22 && s[i] != 0x5c);
            assert(rest[i - 1] == s[i]);
        }
        lemma_escape_ends(line, at + 1, rest);
    }
}

/// What is worth something has no quote in it.
pub proof fn lemma_worth_is_plain(s: Seq<u8>, n: int)
    requires
        worth(s, n),
    ensures
        plain(s),
{
    let (whole, frac) = choose|whole: Seq<u8>, frac: Seq<u8>|
        #![trigger text::decimal(s, whole, frac)]
        text::decimal(s, whole, frac) && n == written(whole) * 100_000_000 + written(frac)
            * text::power((8 - frac.len()) as nat);
    assert forall|i: int| 0 <= i < s.len() implies #[trigger] s[i] != 0x22 && s[i] != 0x5c by {
        if i < whole.len() {
            assert(s[i] == whole[i]);
        } else if i > whole.len() {
            assert(s[i] == frac[i - whole.len() - 1]);
        }
    }
}

/// A decimal in quotes is read as what it is worth.
pub proof fn lemma_decimal_read(line: Seq<u8>, at: int, gap: Seq<u8>, s: Seq<u8>, n: int)
    requires
        stands(line, at, gap + quoted(s)),
        blank(gap),
        worth(s, n),
        n <= i64::MAX,
    ensures
        0 <= n,
        wire_format::quoted_decimal_spec(line, at) == Some(
            (n as i64, (at + gap.len() + quoted(s).len()) as int),
        ),
{
    lemma_worth_is_plain(s, n);
    lemma_string_read(line, at, gap, s);
    text::lemma_worth(s, n);
}

/// Text in quotes that is no decimal, or worth more than fits, is not read.
pub proof fn lemma_decimal_not_read(line: Seq<u8>, at: int, gap: Seq<u8>, s: Seq<u8>)
    requires
        stands(line, at, gap + quoted(s)),
        blank(gap),
        plain(s),
        forall|n: int| worth(s, n) ==> n > i64::MAX,
    ensures
        wire_format::quoted_decimal_spec(line, at) is None,
{
    lemma_string_read(line, at, gap, s);
    if let Some(n) = digits_of::fixed_point(s) {
        text::lemma_worth(s, n as int);
    }
}

/// `true` or `false`.
pub open spec fn word(b: bool) -> Seq<u8> {
    if b {
        seq![0x74u8, 0x72, 0x75, 0x65]
    } else {
        seq![0x66u8, 0x61, 0x6c, 0x73, 0x65]
    }
}

pub proof fn lemma_word_read(line: Seq<u8>, at: int, gap: Seq<u8>, b: bool)
    requires
        stands(line, at, gap + word(b)),
        blank(gap),
    ensures
        wire_format::boolean_spec(line, at) == Some((b, (at + gap.len() + word(b).len()) as int)),
{
    let from = (at + gap.len()) as int;
    digits_of::lemma_stands_split(line, at, gap, word(b));
    digits_of::lemma_stands_at(line, from, word(b), 0);
    lemma_blanks_skipped(line, at, gap);
    if !b {
        assert(line[from] == 0x66);
        if wire_format::holds_word(line, from, wire_format::true_word()) {
            assert(line.subrange(from, from + 4)[0] == 0x74);
        }
    }
    assert(word(true) =~= wire_format::true_word());
    assert(word(false) =~= wire_format::false_word());
}

#[verifier::rlimit(30)]
pub proof fn lemma_number_read(line: Seq<u8>, at: int, gap: Seq<u8>, s: Seq<u8>)
    requires
        stands(line, at, gap + s),
        blank(gap),
        digits(s),
        s.len() >= 1,
        written(s) <= u64::MAX,
        at + gap.len() + s.len() < line.len() ==> !(0x30 <= line[(at + gap.len() + s.len()) as int]
            <= 0x39),
    ensures
        wire_format::number_spec(line, at) == Some(
            (written(s) as u64, (at + gap.len() + s.len()) as int),
        ),
{
    let from = (at + gap.len()) as int;
    digits_of::lemma_stands_split(line, at, gap, s);
    digits_of::lemma_stands_at(line, from, s, 0);
    assert(0x30 <= s[0]);
    lemma_blanks_skipped(line, at, gap);
    let end = from + s.len();
    assert forall|i: int| from <= i < end implies digits_of::is_digit(#[trigger] line[i]) by {
        digits_of::lemma_stands_at(line, from, s, i - from);
        assert(0x30 <= s[i - from] <= 0x39);
    }
    digits_of::lemma_skip_digits_is(line, from, end);
    text::lemma_written(s);
}

// ------------------------------------------------------------------------ levels

/// A level: a price and a quantity, and the blanks around its tokens.
pub struct Level {
    pub before: Seq<u8>,
    pub a: Seq<u8>,
    pub price: Seq<u8>,
    pub b: Seq<u8>,
    pub c: Seq<u8>,
    pub qty: Seq<u8>,
    pub d: Seq<u8>,
    pub after: Seq<u8>,
}

/// Whether only blanks stand around the tokens.
pub open spec fn spaced(level: Level) -> bool {
    &&& blank(level.before)
    &&& blank(level.a)
    &&& blank(level.b)
    &&& blank(level.c)
    &&& blank(level.d)
    &&& blank(level.after)
}

/// Whether both numbers are decimals that fit.
pub open spec fn priced(level: Level) -> bool {
    &&& exists|n: int| n <= i64::MAX && #[trigger] worth(level.price, n)
    &&& exists|n: int| n <= i64::MAX && #[trigger] worth(level.qty, n)
}

/// The level from its opening bracket to its closing one.
pub open spec fn bracketed(level: Level) -> Seq<u8> {
    seq![0x5bu8] + ((level.a + quoted(level.price)) + ((level.b + seq![0x2cu8]) + ((level.c
        + quoted(level.qty)) + (level.d + seq![0x5du8]))))
}

/// The level and the blanks around it.
pub open spec fn level_text(level: Level) -> Seq<u8> {
    level.before + (bracketed(level) + level.after)
}

/// Levels with commas between them.
pub open spec fn levels_text(levels: Seq<Level>) -> Seq<u8>
    decreases levels.len(),
{
    if levels.len() == 0 {
        Seq::empty()
    } else if levels.len() == 1 {
        level_text(levels[0])
    } else {
        level_text(levels[0]) + (seq![0x2cu8] + levels_text(levels.skip(1)))
    }
}

/// Whether `event` is what a level says.
pub open spec fn is_level(level: Level, side: Side, symbol: u16, event: Event) -> bool {
    &&& event.kind == Kind::Level
    &&& event.side == side
    &&& event.symbol == symbol
    &&& worth(level.price, event.price as int)
    &&& worth(level.qty, event.qty as int)
    &&& event.order_id == 0
    &&& event.aux == 0
}

#[verifier::rlimit(30)]
proof fn lemma_level_read(line: Seq<u8>, at: int, level: Level) -> (out: (i64, i64))
    requires
        stands(line, at, bracketed(level)),
        spaced(level),
        priced(level),
    ensures
        worth(level.price, out.0 as int),
        worth(level.qty, out.1 as int),
        wire_format::level_spec(line, at) == Some(
            (out.0, out.1, (at + bracketed(level).len()) as int),
        ),
        wire_format::skip_blanks(line, at) == at,
        line[at] == 0x5b,
{
    let p1 = level.a + quoted(level.price);
    let p2 = level.b + seq![0x2cu8];
    let p3 = level.c + quoted(level.qty);
    let p4 = level.d + seq![0x5du8];
    assert(Seq::<u8>::empty() + seq![0x5bu8] =~= seq![0x5bu8]);
    digits_of::lemma_stands_split(line, at, seq![0x5bu8], p1 + (p2 + (p3 + p4)));
    lemma_byte_read(line, at, Seq::empty(), 0x5b);
    let a1 = at + 1;
    digits_of::lemma_stands_split(line, a1, p1, p2 + (p3 + p4));
    let price = choose|n: int| n <= i64::MAX && #[trigger] worth(level.price, n);
    lemma_decimal_read(line, a1, level.a, level.price, price);
    let a2 = (a1 + p1.len()) as int;
    digits_of::lemma_stands_split(line, a2, p2, p3 + p4);
    lemma_byte_read(line, a2, level.b, 0x2c);
    let a3 = (a2 + p2.len()) as int;
    digits_of::lemma_stands_split(line, a3, p3, p4);
    let qty = choose|n: int| n <= i64::MAX && #[trigger] worth(level.qty, n);
    lemma_decimal_read(line, a3, level.c, level.qty, qty);
    let a4 = (a3 + p3.len()) as int;
    lemma_byte_read(line, a4, level.d, 0x5d);
    (price as i64, qty as i64)
}

/// Levels up to the closing bracket, read one by one.
#[verifier::rlimit(60)]
#[verifier::spinoff_prover]
proof fn lemma_levels_read(
    line: Seq<u8>,
    at: int,
    levels: Seq<Level>,
    side: Side,
    symbol: u16,
) -> (events: Seq<Event>)
    requires
        levels.len() > 0,
        stands(line, at, levels_text(levels) + seq![0x5du8]),
        forall|i: int|
            #![trigger levels[i]]
            0 <= i < levels.len() ==> spaced(levels[i]) && priced(levels[i]),
    ensures
        wire_format::skip_blanks(line, at) == at + levels[0].before.len(),
        !wire_format::holds(line, at + levels[0].before.len(), 0x5d),
        wire_format::levels_spec(
            line,
            (at + levels[0].before.len()) as int,
            side,
            symbol,
        ) == (Part { events, end: Some((at + levels_text(levels).len() + 1) as int) }),
        events.len() == levels.len(),
        forall|i: int|
            #![trigger events[i]]
            0 <= i < levels.len() ==> is_level(levels[i], side, symbol, events[i]),
    decreases levels.len(),
{
    let level = levels[0];
    let close = seq![0x5du8];
    let tail = if levels.len() == 1 {
        close
    } else {
        seq![0x2cu8] + (levels_text(levels.skip(1)) + close)
    };
    assert(levels_text(levels) + close =~= level.before + (bracketed(level) + (level.after
        + tail)));
    digits_of::lemma_stands_split(
        line,
        at,
        level.before,
        bracketed(level) + (level.after + tail),
    );
    let from = (at + level.before.len()) as int;
    digits_of::lemma_stands_split(line, from, bracketed(level), level.after + tail);
    let (price, qty) = lemma_level_read(line, from, level);
    lemma_blanks_skipped(line, at, level.before);
    let end = (from + bracketed(level).len()) as int;
    let event = wire_format::level_event(side, symbol, price, qty);
    if levels.len() == 1 {
        lemma_byte_read(line, end, level.after, 0x5d);
        let next = (end + level.after.len()) as int;
        assert(wire_format::next_level(line, end) == Some(next));
        assert(wire_format::levels_spec(line, next, side, symbol) == (Part {
            events: Seq::empty(),
            end: Some(next + 1),
        }));
        assert(seq![event] + Seq::<Event>::empty() =~= seq![event]);
        seq![event]
    } else {
        let more = levels.skip(1);
        let text = levels_text(more) + close;
        assert(level.after + tail =~= (level.after + seq![0x2cu8]) + text);
        digits_of::lemma_stands_split(line, end, level.after + seq![0x2cu8], text);
        lemma_byte_read(line, end, level.after, 0x2c);
        let next = (end + level.after.len() + 1) as int;
        assert forall|i: int| #![trigger more[i]] 0 <= i < more.len() implies spaced(more[i])
            && priced(more[i]) by {
            assert(more[i] == levels[i + 1]);
        }
        let rest = lemma_levels_read(line, next, more, side, symbol);
        let events = seq![event] + rest;
        assert forall|i: int| #![trigger events[i]] 0 <= i < levels.len() implies is_level(
            levels[i],
            side,
            symbol,
            events[i],
        ) by {
            if i > 0 {
                assert(events[i] == rest[i - 1]);
                assert(more[i - 1] == levels[i]);
            }
        }
        events
    }
}

/// Whether text in quotes is no decimal, or worth more than fits.
pub open spec fn worthless(s: Seq<u8>) -> bool {
    plain(s) && forall|n: int| #[trigger] worth(s, n) ==> n > i64::MAX
}

/// Whether the price of a level cannot be read, or its quantity.
pub open spec fn unpriced(level: Level) -> bool {
    ||| worthless(level.price)
    ||| worthless(level.qty) && exists|n: int| n <= i64::MAX && #[trigger] worth(level.price, n)
}

#[verifier::rlimit(30)]
proof fn lemma_level_not_read(line: Seq<u8>, at: int, level: Level)
    requires
        stands(line, at, bracketed(level)),
        spaced(level),
        unpriced(level),
    ensures
        wire_format::level_spec(line, at) is None,
        wire_format::skip_blanks(line, at) == at,
        line[at] == 0x5b,
{
    let p1 = level.a + quoted(level.price);
    let p2 = level.b + seq![0x2cu8];
    let p3 = level.c + quoted(level.qty);
    let p4 = level.d + seq![0x5du8];
    assert(Seq::<u8>::empty() + seq![0x5bu8] =~= seq![0x5bu8]);
    digits_of::lemma_stands_split(line, at, seq![0x5bu8], p1 + (p2 + (p3 + p4)));
    lemma_byte_read(line, at, Seq::empty(), 0x5b);
    let a1 = at + 1;
    digits_of::lemma_stands_split(line, a1, p1, p2 + (p3 + p4));
    if worthless(level.price) {
        lemma_decimal_not_read(line, a1, level.a, level.price);
    } else {
        let price = choose|n: int| n <= i64::MAX && #[trigger] worth(level.price, n);
        lemma_decimal_read(line, a1, level.a, level.price, price);
        let a2 = (a1 + p1.len()) as int;
        digits_of::lemma_stands_split(line, a2, p2, p3 + p4);
        lemma_byte_read(line, a2, level.b, 0x2c);
        let a3 = (a2 + p2.len()) as int;
        digits_of::lemma_stands_split(line, a3, p3, p4);
        lemma_decimal_not_read(line, a3, level.c, level.qty);
    }
}

/// Levels read up to the one at `j`, which cannot be.
#[verifier::rlimit(60)]
#[verifier::spinoff_prover]
proof fn lemma_levels_stopped(
    line: Seq<u8>,
    at: int,
    levels: Seq<Level>,
    j: int,
    side: Side,
    symbol: u16,
) -> (events: Seq<Event>)
    requires
        0 <= j < levels.len(),
        stands(line, at, levels_text(levels) + seq![0x5du8]),
        forall|i: int| #![trigger levels[i]] 0 <= i < levels.len() ==> spaced(levels[i]),
        forall|i: int| #![trigger levels[i]] 0 <= i < j ==> priced(levels[i]),
        unpriced(levels[j]),
    ensures
        wire_format::skip_blanks(line, at) == at + levels[0].before.len(),
        !wire_format::holds(line, at + levels[0].before.len(), 0x5d),
        wire_format::levels_spec(
            line,
            (at + levels[0].before.len()) as int,
            side,
            symbol,
        ) == (Part { events, end: None }),
        events.len() == j,
        forall|i: int|
            #![trigger events[i]]
            0 <= i < j ==> is_level(levels[i], side, symbol, events[i]),
    decreases levels.len(),
{
    let level = levels[0];
    let close = seq![0x5du8];
    let tail = if levels.len() == 1 {
        close
    } else {
        seq![0x2cu8] + (levels_text(levels.skip(1)) + close)
    };
    assert(levels_text(levels) + close =~= level.before + (bracketed(level) + (level.after
        + tail)));
    digits_of::lemma_stands_split(
        line,
        at,
        level.before,
        bracketed(level) + (level.after + tail),
    );
    let from = (at + level.before.len()) as int;
    digits_of::lemma_stands_split(line, from, bracketed(level), level.after + tail);
    let end = (from + bracketed(level).len()) as int;
    if j == 0 {
        lemma_level_not_read(line, from, level);
        lemma_blanks_skipped(line, at, level.before);
        Seq::empty()
    } else {
        let (price, qty) = lemma_level_read(line, from, level);
        lemma_blanks_skipped(line, at, level.before);
        let event = wire_format::level_event(side, symbol, price, qty);
        let more = levels.skip(1);
        let text = levels_text(more) + close;
        assert(level.after + tail =~= (level.after + seq![0x2cu8]) + text);
        digits_of::lemma_stands_split(line, end, level.after + seq![0x2cu8], text);
        lemma_byte_read(line, end, level.after, 0x2c);
        let next = (end + level.after.len() + 1) as int;
        assert forall|i: int| #![trigger more[i]] 0 <= i < more.len() implies spaced(more[i]) by {
            assert(more[i] == levels[i + 1]);
        }
        assert forall|i: int| #![trigger more[i]] 0 <= i < j - 1 implies priced(more[i]) by {
            assert(more[i] == levels[i + 1]);
        }
        let rest = lemma_levels_stopped(line, next, more, j - 1, side, symbol);
        let events = seq![event] + rest;
        assert forall|i: int| #![trigger events[i]] 0 <= i < j implies is_level(
            levels[i],
            side,
            symbol,
            events[i],
        ) by {
            if i > 0 {
                assert(events[i] == rest[i - 1]);
                assert(more[i - 1] == levels[i]);
            }
        }
        events
    }
}

/// Levels in brackets; blanks may stand alone in them.
pub open spec fn list_text(inside: Seq<u8>, levels: Seq<Level>) -> Seq<u8> {
    seq![0x5bu8] + ((if levels.len() == 0 {
        inside
    } else {
        levels_text(levels)
    }) + seq![0x5du8])
}

#[verifier::rlimit(30)]
pub proof fn lemma_list_read(
    line: Seq<u8>,
    at: int,
    gap: Seq<u8>,
    inside: Seq<u8>,
    levels: Seq<Level>,
    side: Side,
    symbol: u16,
) -> (events: Seq<Event>)
    requires
        stands(line, at, gap + list_text(inside, levels)),
        blank(gap),
        blank(inside),
        forall|i: int|
            #![trigger levels[i]]
            0 <= i < levels.len() ==> spaced(levels[i]) && priced(levels[i]),
    ensures
        wire_format::expect_spec(line, at, 0x5b) == Some((at + gap.len() + 1) as int),
        wire_format::levels_spec(
            line,
            wire_format::skip_blanks(line, (at + gap.len() + 1) as int),
            side,
            symbol,
        ) == (Part {
            events,
            end: Some((at + gap.len() + list_text(inside, levels).len()) as int),
        }),
        events.len() == levels.len(),
        forall|i: int|
            #![trigger events[i]]
            0 <= i < levels.len() ==> is_level(levels[i], side, symbol, events[i]),
{
    let from = (at + gap.len() + 1) as int;
    let content = if levels.len() == 0 {
        inside
    } else {
        levels_text(levels)
    };
    assert(gap + list_text(inside, levels) =~= (gap + seq![0x5bu8]) + (content + seq![0x5du8]));
    digits_of::lemma_stands_split(line, at, gap + seq![0x5bu8], content + seq![0x5du8]);
    lemma_byte_read(line, at, gap, 0x5b);
    if levels.len() == 0 {
        lemma_byte_read(line, from, inside, 0x5d);
        Seq::empty()
    } else {
        lemma_levels_read(line, from, levels, side, symbol)
    }
}

pub proof fn lemma_list_stopped(
    line: Seq<u8>,
    at: int,
    gap: Seq<u8>,
    inside: Seq<u8>,
    levels: Seq<Level>,
    j: int,
    side: Side,
    symbol: u16,
) -> (events: Seq<Event>)
    requires
        stands(line, at, gap + list_text(inside, levels)),
        blank(gap),
        0 <= j < levels.len(),
        forall|i: int| #![trigger levels[i]] 0 <= i < levels.len() ==> spaced(levels[i]),
        forall|i: int| #![trigger levels[i]] 0 <= i < j ==> priced(levels[i]),
        unpriced(levels[j]),
    ensures
        wire_format::expect_spec(line, at, 0x5b) == Some((at + gap.len() + 1) as int),
        wire_format::levels_spec(
            line,
            wire_format::skip_blanks(line, (at + gap.len() + 1) as int),
            side,
            symbol,
        ) == (Part { events, end: None }),
        events.len() == j,
        forall|i: int|
            #![trigger events[i]]
            0 <= i < j ==> is_level(levels[i], side, symbol, events[i]),
{
    let from = (at + gap.len() + 1) as int;
    let content = levels_text(levels);
    assert(gap + list_text(inside, levels) =~= (gap + seq![0x5bu8]) + (content + seq![0x5du8]));
    digits_of::lemma_stands_split(line, at, gap + seq![0x5bu8], content + seq![0x5du8]);
    lemma_byte_read(line, at, gap, 0x5b);
    lemma_levels_stopped(line, from, levels, j, side, symbol)
}

// ------------------------------------------------------------------- other values

/// Whether text can stand in quotes: each quote in it, and each backslash, has a
/// backslash before it.
pub open spec fn escaped(s: Seq<u8>) -> bool
    decreases s.len(),
{
    if s.len() == 0 {
        true
    } else if s[0] == 0x5c {
        s.len() >= 2 && escaped(s.skip(2))
    } else {
        s[0] != 0x22 && escaped(s.skip(1))
    }
}

/// A part of nested structure.
pub enum Token {
    /// A byte that is neither a quote nor a bracket.
    Byte(u8),
    Text(Seq<u8>),
    Open(u8),
    Close(u8),
}

pub open spec fn token_text(token: Token) -> Seq<u8> {
    match token {
        Token::Byte(byte) => seq![byte],
        Token::Text(s) => quoted(s),
        Token::Open(byte) => seq![byte],
        Token::Close(byte) => seq![byte],
    }
}

pub open spec fn tokens_text(tokens: Seq<Token>) -> Seq<u8>
    decreases tokens.len(),
{
    if tokens.len() == 0 {
        Seq::empty()
    } else {
        token_text(tokens[0]) + tokens_text(tokens.skip(1))
    }
}

pub open spec fn is_token(token: Token) -> bool {
    match token {
        Token::Byte(byte) => byte != 0x22 && byte != 0x7b && byte != 0x5b && byte != 0x7d && byte
            != 0x5d,
        Token::Text(s) => escaped(s),
        Token::Open(byte) => byte == 0x7b || byte == 0x5b,
        Token::Close(byte) => byte == 0x7d || byte == 0x5d,
    }
}

/// How many brackets are open.
pub open spec fn height(tokens: Seq<Token>) -> int
    decreases tokens.len(),
{
    if tokens.len() == 0 {
        0
    } else {
        height(tokens.skip(1)) + match tokens[0] {
            Token::Open(_) => 1int,
            Token::Close(_) => -1,
            _ => 0,
        }
    }
}

/// Whether the first bracket is closed by the last one and by none before.
pub open spec fn balanced(tokens: Seq<Token>) -> bool {
    &&& tokens.len() > 0
    &&& tokens[0] is Open
    &&& height(tokens) == 0
    &&& forall|i: int|
        #![trigger tokens.take(i)]
        0 < i < tokens.len() ==> height(tokens.take(i)) > 0
    &&& forall|i: int| #![trigger tokens[i]] 0 <= i < tokens.len() ==> is_token(tokens[i])
}

/// A value that nobody asked for.
pub enum Loose {
    Text(Seq<u8>),
    /// A number or a word.
    Scalar(Seq<u8>),
    Nested(Seq<Token>),
}

pub open spec fn loose_text(loose: Loose) -> Seq<u8> {
    match loose {
        Loose::Text(s) => quoted(s),
        Loose::Scalar(s) => s,
        Loose::Nested(tokens) => tokens_text(tokens),
    }
}

pub open spec fn is_loose(loose: Loose) -> bool {
    match loose {
        Loose::Text(s) => escaped(s),
        Loose::Scalar(s) => {
            &&& s.len() > 0
            &&& s[0] != 0x20 && s[0] != 0x09 && s[0] != 0x0d && s[0] != 0x22 && s[0] != 0x7b
                && s[0] != 0x5b
            &&& forall|i: int|
                #![trigger s[i]]
                0 <= i < s.len() ==> s[i] != 0x2c && s[i] != 0x7d && s[i] != 0x5d && s[i] != 0x0a
        },
        Loose::Nested(tokens) => balanced(tokens),
    }
}

#[verifier::rlimit(30)]
proof fn lemma_text_skipped(line: Seq<u8>, at: int, s: Seq<u8>)
    requires
        stands(line, at, s + seq![0x22u8]),
        escaped(s),
    ensures
        wire_format::skip_string(line, at) == Some((at + s.len() + 1) as int),
        forall|depth: int|
            #![trigger wire_format::skip_nested(line, at, depth, true)]
            wire_format::skip_nested(line, at, depth, true) == wire_format::skip_nested(
                line,
                at + s.len() + 1,
                depth,
                false,
            ),
    decreases s.len(),
{
    let end = s + seq![0x22u8];
    digits_of::lemma_stands_at(line, at, end, 0);
    if s.len() > 0 {
        let n = if s[0] == 0x5c {
            2int
        } else {
            1
        };
        assert(end =~= s.take(n) + (s.skip(n) + seq![0x22u8]));
        digits_of::lemma_stands_split(line, at, s.take(n), s.skip(n) + seq![0x22u8]);
        lemma_text_skipped(line, at + n, s.skip(n));
        assert forall|depth: int|
            #![trigger wire_format::skip_nested(line, at, depth, true)]
            wire_format::skip_nested(line, at, depth, true) == wire_format::skip_nested(
                line,
                at + s.len() + 1,
                depth,
                false,
            ) by {
            assert(wire_format::skip_nested(line, at + n, depth, true)
                == wire_format::skip_nested(line, at + n + s.skip(n).len() + 1, depth, false));
        }
    }
}

#[verifier::rlimit(60)]
#[verifier::spinoff_prover]
proof fn lemma_nested_skipped(line: Seq<u8>, at: int, tokens: Seq<Token>, depth: int)
    requires
        tokens.len() > 0,
        stands(line, at, tokens_text(tokens)),
        forall|i: int| #![trigger tokens[i]] 0 <= i < tokens.len() ==> is_token(tokens[i]),
        depth + height(tokens) == 0,
        forall|i: int|
            #![trigger tokens.take(i)]
            0 <= i < tokens.len() ==> depth + height(tokens.take(i)) > 0,
    ensures
        wire_format::skip_nested(line, at, depth, false) == Some(
            (at + tokens_text(tokens).len()) as int,
        ),
    decreases tokens.len(),
{
    let token = tokens[0];
    let rest = tokens.skip(1);
    let text = token_text(token);
    assert(is_token(token));
    digits_of::lemma_stands_split(line, at, text, tokens_text(rest));
    digits_of::lemma_stands_at(line, at, text, 0);
    let step = match token {
        Token::Open(_) => 1int,
        Token::Close(_) => -1,
        _ => 0,
    };
    let next = (at + text.len()) as int;
    assert(depth + height(tokens.take(0)) > 0);
    assert(tokens.take(0) =~= Seq::empty());
    if tokens.len() == 1 {
        assert(rest =~= Seq::empty());
        assert(height(tokens) == step);
    } else {
        assert forall|i: int| #![trigger rest[i]] 0 <= i < rest.len() implies is_token(rest[i]) by {
            assert(rest[i] == tokens[i + 1]);
        }
        assert forall|i: int|
            #![trigger rest.take(i)]
            0 <= i < rest.len() implies depth + step + height(rest.take(i)) > 0 by {
            let longer = tokens.take(i + 1);
            assert(depth + height(longer) > 0);
            assert(longer.skip(1) =~= rest.take(i));
            assert(longer[0] == token);
        }
        assert(depth + step + height(rest.take(0)) > 0);
        assert(rest.take(0) =~= Seq::empty());
        lemma_nested_skipped(line, next, rest, depth + step);
        if let Token::Text(s) = token {
            digits_of::lemma_stands_split(line, at, seq![0x22u8], s + seq![0x22u8]);
            lemma_text_skipped(line, at + 1, s);
            assert(wire_format::skip_nested(line, at + 1, depth, true)
                == wire_format::skip_nested(line, next, depth, false));
        }
    }
}

#[verifier::rlimit(30)]
proof fn lemma_scalar_skipped(line: Seq<u8>, at: int, s: Seq<u8>)
    requires
        stands(line, at, s),
        at + s.len() < line.len(),
        ({
            let end = line[(at + s.len()) as int];
            end == 0x2c || end == 0x7d
        }),
        forall|i: int|
            #![trigger s[i]]
            0 <= i < s.len() ==> s[i] != 0x2c && s[i] != 0x7d && s[i] != 0x5d && s[i] != 0x0a,
    ensures
        wire_format::skip_scalar(line, at) == Some((at + s.len()) as int),
    decreases s.len(),
{
    if s.len() > 0 {
        let rest = s.skip(1);
        digits_of::lemma_stands_at(line, at, s, 0);
        assert(s =~= seq![s[0]] + rest);
        digits_of::lemma_stands_split(line, at, seq![s[0]], rest);
        assert forall|i: int| #![trigger rest[i]] 0 <= i < rest.len() implies rest[i] != 0x2c
            && rest[i] != 0x7d && rest[i] != 0x5d && rest[i] != 0x0a by {
            assert(rest[i] == s[i + 1]);
        }
        lemma_scalar_skipped(line, at + 1, rest);
    }
}

/// A value that nobody asked for is passed over, and what follows it found.
#[verifier::rlimit(60)]
#[verifier::spinoff_prover]
pub proof fn lemma_loose_skipped(
    line: Seq<u8>,
    at: int,
    gap: Seq<u8>,
    loose: Loose,
    after: Seq<u8>,
    end: u8,
)
    requires
        stands(line, at, (gap + loose_text(loose)) + (after + seq![end])),
        blank(gap),
        blank(after),
        is_loose(loose),
        end == 0x2c || end == 0x7d,
    ensures
        ({
            let skipped = wire_format::skip_value_spec(line, at);
            &&& skipped is Some
            &&& wire_format::skip_blanks(line, skipped->0) == at + gap.len() + loose_text(
                loose,
            ).len() + after.len()
        }),
{
    let text = loose_text(loose);
    let from = (at + gap.len()) as int;
    let behind = (from + text.len()) as int;
    digits_of::lemma_stands_split(line, at, gap + text, after + seq![end]);
    digits_of::lemma_stands_split(line, at, gap, text);
    lemma_byte_read(line, behind, after, end);
    match loose {
        Loose::Text(s) => {
            digits_of::lemma_stands_at(line, from, text, 0);
            lemma_blanks_skipped(line, at, gap);
            digits_of::lemma_stands_split(line, from, seq![0x22u8], s + seq![0x22u8]);
            lemma_text_skipped(line, from + 1, s);
        },
        Loose::Scalar(s) => {
            digits_of::lemma_stands_at(line, from, text, 0);
            lemma_blanks_skipped(line, at, gap);
            let long = s + after;
            assert forall|i: int| #![trigger long[i]] 0 <= i < long.len() implies long[i] != 0x2c
                && long[i] != 0x7d && long[i] != 0x5d && long[i] != 0x0a by {
                if i < s.len() {
                    assert(long[i] == s[i]);
                } else {
                    assert(long[i] == after[i - s.len()]);
                }
            }
            digits_of::lemma_stands_split(line, behind, after, seq![end]);
            assert(line.subrange(from, (from + long.len()) as int) =~= long) by {
                assert forall|i: int| 0 <= i < long.len() implies line[from + i] == long[i] by {
                    if i < s.len() {
                        digits_of::lemma_stands_at(line, from, s, i);
                    } else {
                        digits_of::lemma_stands_at(line, behind, after, i - s.len());
                    }
                }
            }
            lemma_scalar_skipped(line, from, long);
        },
        Loose::Nested(tokens) => {
            let first = tokens[0];
            let rest = tokens.skip(1);
            assert(is_token(first));
            digits_of::lemma_stands_split(line, from, token_text(first), tokens_text(rest));
            digits_of::lemma_stands_at(line, from, token_text(first), 0);
            lemma_blanks_skipped(line, at, gap);
            assert forall|i: int| #![trigger rest[i]] 0 <= i < rest.len() implies is_token(
                rest[i],
            ) by {
                assert(rest[i] == tokens[i + 1]);
            }
            assert forall|i: int|
                #![trigger rest.take(i)]
                0 <= i < rest.len() implies 1 + height(rest.take(i)) > 0 by {
                let longer = tokens.take(i + 1);
                assert(height(longer) > 0);
                assert(longer.skip(1) =~= rest.take(i));
                assert(longer[0] == first);
            }
            if rest.len() == 0 {
                assert(rest =~= Seq::empty());
                assert(height(rest) == 0);
            }
            lemma_nested_skipped(line, from + 1, rest, 1);
        },
    }
}

/// A zero more at the end of a fraction never changes what a decimal in quotes is
/// read as, nor whether it is read.
pub proof fn lemma_trailing_zero_is_nothing(
    gap: Seq<u8>,
    whole: Seq<u8>,
    frac: Seq<u8>,
    more: Seq<u8>,
)
    requires
        blank(gap),
        digits(whole),
        whole.len() >= 1,
        digits(frac),
        frac.len() < 8,
    ensures
        ({
            let short = whole + seq![0x2eu8] + frac;
            let long = whole + seq![0x2eu8] + frac.push(0x30);
            let a = wire_format::quoted_decimal_spec((gap + quoted(short)) + more, 0);
            let b = wire_format::quoted_decimal_spec((gap + quoted(long)) + more, 0);
            match (a, b) {
                (Some((n, _)), Some((m, _))) => n == m,
                (None, None) => true,
                _ => false,
            }
        }),
{
    let short = whole + seq![0x2eu8] + frac;
    let zero = frac.push(0x30);
    let long = whole + seq![0x2eu8] + zero;
    let a = (gap + quoted(short)) + more;
    let b = (gap + quoted(long)) + more;
    assert(a.subrange(0, (gap + quoted(short)).len() as int) =~= gap + quoted(short));
    assert(b.subrange(0, (gap + quoted(long)).len() as int) =~= gap + quoted(long));
    assert forall|i: int| 0 <= i < zero.len() implies 0x30 <= #[trigger] zero[i] <= 0x39 by {
        if i < frac.len() {
            assert(zero[i] == frac[i]);
        }
    }
    assert(text::decimal(short, whole, frac));
    let n = (written(whole) * 100_000_000 + written(frac) * text::power(
        (8 - frac.len()) as nat,
    )) as int;
    assert(worth(short, n));
    text::lemma_trailing_zero(whole, frac, n);
    if n <= i64::MAX {
        lemma_decimal_read(a, 0, gap, short, n);
        lemma_decimal_read(b, 0, gap, long, n);
    } else {
        lemma_worth_is_plain(short, n);
        lemma_worth_is_plain(long, n);
        text::lemma_worth(short, n);
        text::lemma_worth(long, n);
        assert forall|m: int| worth(short, m) implies m > i64::MAX by {
            text::lemma_worth(short, m);
        }
        assert forall|m: int| worth(long, m) implies m > i64::MAX by {
            text::lemma_worth(long, m);
        }
        lemma_decimal_not_read(a, 0, gap, short);
        lemma_decimal_not_read(b, 0, gap, long);
    }
}

} // verus!
