//! JSON lines: what the members of a line say, whatever order they come in,
//! whatever stands among them and wherever blanks are.

use vstd::prelude::*;

use crate::feed;
use crate::feed::json as wire_format;
use crate::feed::json::{Fields, Json, Members};
use crate::feed::text as digits_of;
use crate::feed::text::stands;
use crate::feed::{Decoding, Event, FeedError, Kind, Parser, Side};
use crate::promises::text;
use crate::promises::text::{digits, first_at, worth, written};
use crate::promises::values;
use crate::promises::values::{
    blank, escaped, is_level, is_loose, list_text, loose_text, plain, priced, quoted, spaced,
    unpriced, word, Level, Loose, Token,
};
use crate::promises::{refused, then_reads, waits};

verus! {

/// The value of a member.
pub enum Value {
    Text(Seq<u8>),
    Word(bool),
    Count(Seq<u8>),
    Levels { inside: Seq<u8>, levels: Seq<Level> },
    Loose(Loose),
}

/// A member, and the blanks around its tokens.
pub struct Member {
    pub before: Seq<u8>,
    pub key: Seq<u8>,
    pub colon: Seq<u8>,
    pub gap: Seq<u8>,
    pub value: Value,
    pub after: Seq<u8>,
}

pub open spec fn value_text(value: Value) -> Seq<u8> {
    match value {
        Value::Text(s) => quoted(s),
        Value::Word(b) => word(b),
        Value::Count(s) => s,
        Value::Levels { inside, levels } => list_text(inside, levels),
        Value::Loose(loose) => loose_text(loose),
    }
}

pub open spec fn member_text(member: Member) -> Seq<u8> {
    (member.before + quoted(member.key)) + ((member.colon + seq![0x3au8]) + ((member.gap
        + value_text(member.value)) + member.after))
}

/// Members with commas between them.
pub open spec fn members_text(members: Seq<Member>) -> Seq<u8>
    decreases members.len(),
{
    if members.len() == 0 {
        Seq::empty()
    } else if members.len() == 1 {
        member_text(members[0])
    } else {
        member_text(members[0]) + (seq![0x2cu8] + members_text(members.skip(1)))
    }
}

/// A line: members in braces, and the blanks around them.
pub open spec fn line_text(lead: Seq<u8>, members: Seq<Member>, tail: Seq<u8>) -> Seq<u8> {
    (lead + seq![0x7bu8]) + (members_text(members) + (seq![0x7du8] + tail))
}

/// Whether only blanks stand around the tokens, and the key can stand in quotes.
pub open spec fn is_member(member: Member) -> bool {
    &&& blank(member.before)
    &&& blank(member.colon)
    &&& blank(member.gap)
    &&& blank(member.after)
    &&& plain(member.key)
}

pub open spec fn all_members(members: Seq<Member>) -> bool {
    forall|i: int| #![trigger members[i]] 0 <= i < members.len() ==> is_member(members[i])
}

/// Whether the key is this letter.
pub open spec fn keyed(member: Member, letter: u8) -> bool {
    member.key == seq![letter]
}

/// The last member before `hi` with this letter for a key, or -1.
pub open spec fn last_of(members: Seq<Member>, letter: u8, hi: int) -> int
    decreases hi,
{
    if hi <= 0 {
        -1
    } else if keyed(members[hi - 1], letter) {
        hi - 1
    } else {
        last_of(members, letter, hi - 1)
    }
}

/// Whether the text is in quotes and a decimal that fits.
pub open spec fn is_amount(value: Value) -> bool {
    value matches Value::Text(s) && exists|n: int| n <= i64::MAX && #[trigger] worth(s, n)
}

/// Whether the member at `i` can be read: `e` is text, `s` a listed name, `p` and
/// `q` decimals in quotes, `m` a word, `t` a number, `b` and `a` levels for which
/// a symbol was named; under any other key, anything.
pub open spec fn readable(table: Seq<&[u8]>, members: Seq<Member>, i: int) -> bool {
    let member = members[i];
    if keyed(member, 0x65) {
        member.value matches Value::Text(s) && plain(s)
    } else if keyed(member, 0x73) {
        member.value matches Value::Text(s) && plain(s) && exists|at: int|
            #[trigger] first_at(table, s, at)
    } else if keyed(member, 0x70) || keyed(member, 0x71) {
        is_amount(member.value)
    } else if keyed(member, 0x6d) {
        member.value is Word
    } else if keyed(member, 0x74) {
        member.value matches Value::Count(s) && digits(s) && s.len() >= 1 && written(s) <= u64::MAX
    } else if keyed(member, 0x62) || keyed(member, 0x61) {
        last_of(members, 0x73, i) >= 0 && is_levels(member.value)
    } else {
        member.value matches Value::Loose(loose) && is_loose(loose)
    }
}

/// Whether the value is a list of levels with decimals that fit.
pub open spec fn is_levels(value: Value) -> bool {
    value matches Value::Levels { inside, levels } && blank(inside) && (forall|l: int|
        #![trigger levels[l]]
        0 <= l < levels.len() ==> spaced(levels[l]) && priced(levels[l]))
}

/// Whether `index` is the symbol that the last `s` before `hi` names.
pub open spec fn is_about(table: Seq<&[u8]>, members: Seq<Member>, hi: int, index: u16) -> bool {
    let i = last_of(members, 0x73, hi);
    i >= 0 && (members[i].value matches Value::Text(s) && exists|at: int|
        #[trigger] first_at(table, s, at) && index == at as u16)
}

/// Whether `n` is what the last member before `hi` with this key is worth;
/// nothing said is zero.
pub open spec fn amounts_to(members: Seq<Member>, letter: u8, hi: int, n: int) -> bool {
    let i = last_of(members, letter, hi);
    if i < 0 {
        n == 0
    } else {
        members[i].value matches Value::Text(s) && worth(s, n)
    }
}

/// Whether the last `m` says that the buyer was the maker.
pub open spec fn maker_bought(members: Seq<Member>, hi: int) -> bool {
    let i = last_of(members, 0x6d, hi);
    i >= 0 && members[i].value == Value::Word(true)
}

/// The number that the last `t` writes, or zero.
pub open spec fn trade_number(members: Seq<Member>, hi: int) -> nat {
    let i = last_of(members, 0x74, hi);
    if i < 0 {
        0
    } else {
        match members[i].value {
            Value::Count(s) => written(s),
            _ => 0,
        }
    }
}

/// Whether the last `e` says `trade`.
pub open spec fn is_trade(members: Seq<Member>) -> bool {
    let i = last_of(members, 0x65, members.len() as int);
    i >= 0 && members[i].value == Value::Text(seq![0x74u8, 0x72, 0x61, 0x64, 0x65])
}

/// The levels of a member: those of `b` are bids and those of `a` asks.
pub open spec fn levels_of(member: Member) -> Seq<Level> {
    if keyed(member, 0x62) || keyed(member, 0x61) {
        match member.value {
            Value::Levels { levels, .. } => levels,
            _ => Seq::empty(),
        }
    } else {
        Seq::empty()
    }
}

/// Levels in the members before `hi`.
pub open spec fn levels_before(members: Seq<Member>, hi: int) -> nat
    decreases hi,
{
    if hi <= 0 {
        0
    } else {
        levels_before(members, hi - 1) + levels_of(members[hi - 1]).len()
    }
}

/// Whether `event` is what level `l` of the member at `i` says.
pub open spec fn is_depth(
    table: Seq<&[u8]>,
    members: Seq<Member>,
    i: int,
    l: int,
    event: Event,
) -> bool {
    let side = if keyed(members[i], 0x62) {
        Side::Bid
    } else {
        Side::Ask
    };
    is_level(levels_of(members[i])[l], side, event.symbol, event) && is_about(
        table,
        members,
        i,
        event.symbol,
    )
}

/// Whether the events are those of every level of the members from `lo` on and
/// before `hi`, in order.
pub open spec fn are_depth(
    table: Seq<&[u8]>,
    members: Seq<Member>,
    lo: int,
    hi: int,
    events: Seq<Event>,
) -> bool {
    &&& events.len() == levels_before(members, hi) - levels_before(members, lo)
    &&& forall|i: int, l: int|
        #![trigger levels_of(members[i])[l]]
        lo <= i < hi && 0 <= l < levels_of(members[i]).len() ==> is_depth(
            table,
            members,
            i,
            l,
            events[levels_before(members, i) - levels_before(members, lo) + l],
        )
}

/// Whether `event` is the trade that the members tell of: the last price, the
/// last quantity, the last number and the last symbol. Where the buyer was the
/// maker the bid was hit.
pub open spec fn is_print(table: Seq<&[u8]>, members: Seq<Member>, event: Event) -> bool {
    let n = members.len() as int;
    &&& event.kind == Kind::Trade
    &&& event.side == (if maker_bought(members, n) {
        Side::Ask
    } else {
        Side::Bid
    })
    &&& amounts_to(members, 0x70, n, event.price as int)
    &&& amounts_to(members, 0x71, n, event.qty as int)
    &&& event.aux == trade_number(members, n)
    &&& is_about(table, members, n, event.symbol)
    &&& event.order_id == 0
}

// ------------------------------------------------------------------- the reading

/// Whether `byte` ends a value of this form.
pub open spec fn ends_value(value: Value, byte: u8) -> bool {
    byte == 0x2c || byte == 0x7d || {
        &&& value !is Loose
        &&& byte != 0x20 && byte != 0x09 && byte != 0x0d
        &&& !(0x30 <= byte <= 0x39)
    }
}

/// What the members before the one at `k` have said.
#[verifier::opaque]
spec fn has_heard(table: Seq<&[u8]>, members: Seq<Member>, k: int, fields: Fields) -> bool {
    let e = last_of(members, 0x65, k);
    &&& match fields.kind {
        Some(kind) => e >= 0 && members[e].value == Value::Text(kind),
        None => e < 0,
    }
    &&& match fields.symbol {
        Some(symbol) => is_about(table, members, k, symbol),
        None => last_of(members, 0x73, k) < 0,
    }
    &&& amounts_to(members, 0x70, k, fields.price as int)
    &&& amounts_to(members, 0x71, k, fields.qty as int)
    &&& fields.maker_is_buyer == maker_bought(members, k)
    &&& fields.trade_id == trade_number(members, k)
}

proof fn lemma_keyed(member: Member)
    ensures
        forall|letter: u8|
            #![trigger keyed(member, letter)]
            keyed(member, letter) == wire_format::key_is(member.key, letter),
{
    assert forall|letter: u8|
        #![trigger keyed(member, letter)]
        keyed(member, letter) == wire_format::key_is(member.key, letter) by {
        if member.key.len() == 1 {
            assert(member.key =~= seq![member.key[0]]);
        }
    }
}

/// The value of a member is read, and the byte behind the member found.
#[verifier::rlimit(60)]
#[verifier::spinoff_prover]
proof fn lemma_value_read(
    table: Seq<&[u8]>,
    line: Seq<u8>,
    at: int,
    members: Seq<Member>,
    k: int,
    fields: Fields,
    end: u8,
) -> (out: (Seq<Event>, Fields))
    requires
        0 <= k < members.len(),
        is_member(members[k]),
        readable(table, members, k),
        has_heard(table, members, k, fields),
        stands(
            line,
            at,
            (members[k].gap + value_text(members[k].value)) + (members[k].after + seq![end]),
        ),
        ends_value(members[k].value, end),
    ensures
        ({
            let member = members[k];
            let read = wire_format::member_spec(
                feed::names(table),
                line,
                at,
                0,
                member.key,
                fields,
            );
            &&& read.events == out.0
            &&& read.result matches Ok((said, next)) && said == out.1 && wire_format::skip_blanks(
                line,
                next,
            ) == at + member.gap.len() + value_text(member.value).len() + member.after.len()
            &&& has_heard(table, members, k + 1, out.1)
            &&& out.0.len() == levels_of(member).len()
            &&& forall|l: int|
                #![trigger out.0[l]]
                0 <= l < out.0.len() ==> is_depth(table, members, k, l, out.0[l])
        }),
{
    reveal(has_heard);
    let member = members[k];
    let gap = member.gap;
    let names = feed::names(table);
    let value = value_text(member.value);
    let behind = (at + gap.len() + value.len()) as int;
    lemma_keyed(member);
    digits_of::lemma_stands_split(line, at, gap + value, member.after + seq![end]);
    values::lemma_byte_read(line, behind, member.after, end);
    digits_of::lemma_stands_split(line, behind, member.after, seq![end]);
    let read = wire_format::member_spec(names, line, at, 0, member.key, fields);
    if keyed(member, 0x65) {
        let s = member.value->Text_0;
        values::lemma_string_read(line, at, gap, s);
        let said = Fields { kind: Some(s), ..fields };
        (Seq::empty(), said)
    } else if keyed(member, 0x73) {
        let s = member.value->Text_0;
        values::lemma_string_read(line, at, gap, s);
        let index = choose|index: int| #[trigger] first_at(table, s, index);
        text::lemma_found_first(table, s, index);
        let said = Fields { symbol: Some(index as u16), ..fields };
        assert(last_of(members, 0x73, k + 1) == k);
        assert(is_about(table, members, k + 1, index as u16));
        (Seq::empty(), said)
    } else if keyed(member, 0x70) || keyed(member, 0x71) {
        let s = member.value->Text_0;
        let n = choose|n: int| n <= i64::MAX && #[trigger] worth(s, n);
        values::lemma_decimal_read(line, at, gap, s, n);
        let said = if keyed(member, 0x70) {
            Fields { price: n as i64, ..fields }
        } else {
            Fields { qty: n as i64, ..fields }
        };
        (Seq::empty(), said)
    } else if keyed(member, 0x6d) {
        let b = member.value->Word_0;
        values::lemma_word_read(line, at, gap, b);
        (Seq::empty(), Fields { maker_is_buyer: b, ..fields })
    } else if keyed(member, 0x74) {
        let s = member.value->Count_0;
        if member.after.len() > 0 {
            digits_of::lemma_stands_at(line, behind, member.after, 0);
            assert(member.after[0] < 0x30);
        }
        values::lemma_number_read(line, at, gap, s);
        (Seq::empty(), Fields { trade_id: written(s) as u64, ..fields })
    } else if keyed(member, 0x62) || keyed(member, 0x61) {
        let side = if keyed(member, 0x62) {
            Side::Bid
        } else {
            Side::Ask
        };
        let inside = member.value->inside;
        let levels = member.value->levels;
        let symbol = fields.symbol->0;
        let events = values::lemma_list_read(line, at, gap, inside, levels, side, symbol);
        (events, fields)
    } else {
        let loose = member.value->Loose_0;
        values::lemma_loose_skipped(line, at, gap, loose, member.after, end);
        (Seq::empty(), fields)
    }
}

/// A member is read from its key on.
#[verifier::rlimit(30)]
proof fn lemma_member_read(
    table: Seq<&[u8]>,
    line: Seq<u8>,
    at: int,
    members: Seq<Member>,
    k: int,
    fields: Fields,
    end: u8,
) -> (out: (Seq<Event>, Fields))
    requires
        0 <= k < members.len(),
        is_member(members[k]),
        readable(table, members, k),
        has_heard(table, members, k, fields),
        stands(line, at, member_text(members[k]) + seq![end]),
        ends_value(members[k].value, end),
    ensures
        ({
            let read = wire_format::member_at(feed::names(table), line, at, 0, fields);
            &&& read.events == out.0
            &&& read.result matches Ok((said, next)) && said == out.1 && wire_format::skip_blanks(
                line,
                next,
            ) == at + member_text(members[k]).len()
            &&& has_heard(table, members, k + 1, out.1)
            &&& out.0.len() == levels_of(members[k]).len()
            &&& forall|l: int|
                #![trigger out.0[l]]
                0 <= l < out.0.len() ==> is_depth(table, members, k, l, out.0[l])
        }),
{
    let member = members[k];
    lemma_key_read(line, at, member, end);
    let named = at + member.before.len() + quoted(member.key).len();
    let from = (named + member.colon.len() + 1) as int;
    lemma_value_read(table, line, from, members, k, fields, end)
}

/// The key of a member is read, and its value found.
#[verifier::rlimit(30)]
proof fn lemma_key_read(line: Seq<u8>, at: int, member: Member, end: u8)
    requires
        is_member(member),
        stands(line, at, member_text(member) + seq![end]),
    ensures
        ({
            let named = (at + member.before.len() + quoted(member.key).len()) as int;
            let from = (named + member.colon.len() + 1) as int;
            &&& wire_format::string_spec(line, at) == Some((member.key, named))
            &&& wire_format::expect_spec(line, named, 0x3a) == Some(from)
            &&& stands(
                line,
                from,
                (member.gap + value_text(member.value)) + (member.after + seq![end]),
            )
            &&& line[(at + member_text(member).len()) as int] == end
            &&& at + member_text(member).len() < line.len()
        }),
{
    let p1 = member.before + quoted(member.key);
    let p2 = member.colon + seq![0x3au8];
    let p3 = (member.gap + value_text(member.value)) + (member.after + seq![end]);
    assert(member_text(member) + seq![end] =~= p1 + (p2 + p3));
    digits_of::lemma_stands_at(
        line,
        at,
        member_text(member) + seq![end],
        member_text(member).len() as int,
    );
    digits_of::lemma_stands_split(line, at, p1, p2 + p3);
    values::lemma_string_read(line, at, member.before, member.key);
    let named = (at + p1.len()) as int;
    digits_of::lemma_stands_split(line, named, p2, p3);
    values::lemma_byte_read(line, named, member.colon, 0x3a);
}

/// Depth events of consecutive members follow one another.
#[verifier::rlimit(30)]
proof fn lemma_depth_adds(
    table: Seq<&[u8]>,
    members: Seq<Member>,
    k: int,
    hi: int,
    here: Seq<Event>,
    more: Seq<Event>,
)
    requires
        0 <= k < hi <= members.len(),
        here.len() == levels_of(members[k]).len(),
        forall|l: int|
            #![trigger here[l]]
            0 <= l < here.len() ==> is_depth(table, members, k, l, here[l]),
        are_depth(table, members, k + 1, hi, more),
    ensures
        are_depth(table, members, k, hi, here + more),
{
    let all = here + more;
    assert forall|i: int, l: int|
        #![trigger levels_of(members[i])[l]]
        k <= i < hi && 0 <= l < levels_of(members[i]).len() implies is_depth(
        table,
        members,
        i,
        l,
        all[levels_before(members, i) - levels_before(members, k) + l],
    ) by {
        let before = levels_before(members, k);
        let level = levels_of(members[i])[l];
        assert(levels_before(members, i + 1) == levels_before(members, i) + levels_of(
            members[i],
        ).len());
        if i == k {
            assert(all[l] == here[l]);
        } else {
            lemma_levels_grow(members, k + 1, i);
            lemma_levels_grow(members, i + 1, hi);
            let at = levels_before(members, i) - levels_before(members, k + 1) + l;
            assert(levels_before(members, k + 1) == before + here.len());
            assert(all[levels_before(members, i) - before + l] == more[at]);
            assert(is_depth(table, members, i, l, more[at]));
        }
    }
}

proof fn lemma_levels_grow(members: Seq<Member>, lo: int, hi: int)
    requires
        0 <= lo <= hi,
    ensures
        levels_before(members, lo) <= levels_before(members, hi),
    decreases hi - lo,
{
    if lo < hi {
        lemma_levels_grow(members, lo, hi - 1);
    }
}

/// Members up to the one at `stop` read, with the commas between them.
#[verifier::rlimit(60)]
#[verifier::spinoff_prover]
proof fn lemma_members_read(
    table: Seq<&[u8]>,
    line: Seq<u8>,
    at: int,
    members: Seq<Member>,
    k: int,
    stop: int,
    fields: Fields,
    tail: Seq<u8>,
) -> (out: (Seq<Event>, Fields, int))
    requires
        0 <= k <= stop < members.len(),
        all_members(members),
        forall|i: int|
            #![trigger members[i]]
            k <= i < stop ==> readable(table, members, i),
        has_heard(table, members, k, fields),
        stands(line, at, members_text(members.skip(k)) + tail),
    ensures
        ({
            let rest = wire_format::members_spec(feed::names(table), line, out.2, 0, out.1);
            &&& wire_format::members_spec(feed::names(table), line, at, 0, fields) == (Members {
                events: out.0 + rest.events,
                result: rest.result,
            })
            &&& has_heard(table, members, stop, out.1)
            &&& are_depth(table, members, k, stop, out.0)
            &&& stands(line, out.2, members_text(members.skip(stop)) + tail)
            &&& out.2 + members_text(members.skip(stop)).len() == at + members_text(
                members.skip(k),
            ).len()
            &&& at <= out.2
        }),
    decreases stop - k,
{
    let names = feed::names(table);
    let whole = wire_format::members_spec(names, line, at, 0, fields);
    if k == stop {
        assert(whole =~= (Members {
            events: Seq::<Event>::empty() + whole.events,
            result: whole.result,
        }));
        (Seq::empty(), fields, at)
    } else {
        let member = members[k];
        let now = members.skip(k);
        let later = members.skip(k + 1);
        assert(now[0] == member);
        assert(now.skip(1) =~= later);
        let text = member_text(member) + seq![0x2cu8];
        assert(members_text(now) + tail =~= text + (members_text(later) + tail));
        digits_of::lemma_stands_split(line, at, text, members_text(later) + tail);
        assert(readable(table, members, k));
        let (here, said) = lemma_member_read(table, line, at, members, k, fields, 0x2c);
        lemma_key_read(line, at, member, 0x2c);
        let next = (at + text.len()) as int;
        let (more, last, end) = lemma_members_read(
            table,
            line,
            next,
            members,
            k + 1,
            stop,
            said,
            tail,
        );
        let rest = wire_format::members_spec(names, line, end, 0, last);
        assert(here + (more + rest.events) =~= (here + more) + rest.events);
        lemma_depth_adds(table, members, k, stop, here, more);
        (here + more, last, end)
    }
}

proof fn lemma_nothing_heard(table: Seq<&[u8]>, members: Seq<Member>)
    ensures
        has_heard(table, members, 0, wire_format::no_fields()),
{
    reveal(has_heard);
}

/// Where the members of a line start.
proof fn lemma_line_opens(lead: Seq<u8>, members: Seq<Member>, tail: Seq<u8>)
    requires
        blank(lead),
    ensures
        ({
            let line = line_text(lead, members, tail);
            let from = (lead.len() + 1) as int;
            &&& wire_format::expect_spec(line, 0, 0x7b) == Some(from)
            &&& stands(line, from, members_text(members.skip(0)) + (seq![0x7du8] + tail))
            &&& members.skip(0) == members
            &&& line.len() == from + members_text(members).len() + 1 + tail.len()
        }),
{
    let line = line_text(lead, members, tail);
    let open = lead + seq![0x7bu8];
    let rest = members_text(members) + (seq![0x7du8] + tail);
    assert(line.subrange(0, line.len() as int) =~= line);
    digits_of::lemma_stands_split(line, 0, open, rest);
    values::lemma_byte_read(line, 0, lead, 0x7b);
    assert(members.skip(0) =~= members);
}

/// All the members of a line, and its end.
#[verifier::rlimit(60)]
#[verifier::spinoff_prover]
proof fn lemma_all_members_read(
    table: Seq<&[u8]>,
    lead: Seq<u8>,
    members: Seq<Member>,
    tail: Seq<u8>,
) -> (out: (Seq<Event>, Fields))
    requires
        blank(lead),
        members.len() > 0,
        all_members(members),
        forall|i: int|
            #![trigger members[i]]
            0 <= i < members.len() ==> readable(table, members, i),
    ensures
        ({
            let line = line_text(lead, members, tail);
            let end = (line.len() - tail.len()) as int;
            &&& wire_format::members_spec(
                feed::names(table),
                line,
                (lead.len() + 1) as int,
                0,
                wire_format::no_fields(),
            ) == (Members { events: out.0, result: Ok((out.1, end)) })
            &&& wire_format::skip_blanks(line, end) == line.len() <==> blank(tail)
            &&& has_heard(table, members, members.len() as int, out.1)
            &&& are_depth(table, members, 0, members.len() as int, out.0)
        }),
{
    let names = feed::names(table);
    let line = line_text(lead, members, tail);
    let from = (lead.len() + 1) as int;
    let close = seq![0x7du8] + tail;
    let n = members.len() as int;
    lemma_line_opens(lead, members, tail);
    lemma_nothing_heard(table, members);
    let (before, fields, at) = lemma_members_read(
        table,
        line,
        from,
        members,
        0,
        n - 1,
        wire_format::no_fields(),
        close,
    );
    let last = members[n - 1];
    let only = members.skip(n - 1);
    assert(only.len() == 1 && only[0] == last);
    let text = member_text(last) + seq![0x7du8];
    assert(members_text(only) + close =~= text + tail);
    digits_of::lemma_stands_split(line, at, text, tail);
    assert(readable(table, members, n - 1));
    let (here, said) = lemma_member_read(table, line, at, members, n - 1, fields, 0x7d);
    lemma_key_read(line, at, last, 0x7d);
    let end = (at + text.len()) as int;
    if blank(tail) {
        values::lemma_blanks_skipped(line, end, tail);
    }
    if wire_format::skip_blanks(line, end) == line.len() {
        lemma_all_blank(line, end);
        assert forall|i: int| 0 <= i < tail.len() implies #[trigger] tail[i] == 0x20 || tail[i]
            == 0x09 || tail[i] == 0x0d by {
            digits_of::lemma_stands_at(line, end, tail, i);
            assert(wire_format::is_blank(line[end + i]));
        }
    }
    assert(here + Seq::<Event>::empty() =~= here);
    lemma_depth_adds(table, members, n - 1, n, here, Seq::empty());
    let rest = wire_format::members_spec(names, line, at, 0, fields);
    assert(rest == (Members { events: here, result: Ok((said, (at + text.len()) as int)) }));
    lemma_depth_joins(table, members, n - 1, n, before, here);
    (before + here, said)
}

proof fn lemma_all_blank(line: Seq<u8>, at: int)
    requires
        0 <= at <= line.len(),
        wire_format::skip_blanks(line, at) == line.len(),
    ensures
        forall|i: int| at <= i < line.len() ==> wire_format::is_blank(#[trigger] line[i]),
    decreases line.len() - at,
{
    if at < line.len() {
        lemma_all_blank(line, at + 1);
    }
}

#[verifier::rlimit(30)]
proof fn lemma_depth_joins(
    table: Seq<&[u8]>,
    members: Seq<Member>,
    k: int,
    hi: int,
    before: Seq<Event>,
    here: Seq<Event>,
)
    requires
        0 <= k <= hi <= members.len(),
        are_depth(table, members, 0, k, before),
        are_depth(table, members, k, hi, here),
    ensures
        are_depth(table, members, 0, hi, before + here),
{
    let all = before + here;
    assert forall|i: int, l: int|
        #![trigger levels_of(members[i])[l]]
        0 <= i < hi && 0 <= l < levels_of(members[i]).len() implies is_depth(
        table,
        members,
        i,
        l,
        all[levels_before(members, i) - levels_before(members, 0) + l],
    ) by {
        let at = levels_before(members, i) + l;
        assert(levels_before(members, 0) == 0);
        assert(levels_before(members, i + 1) == levels_before(members, i) + levels_of(
            members[i],
        ).len());
        let level = levels_of(members[i])[l];
        if i < k {
            lemma_levels_grow(members, i + 1, k);
            assert(at < before.len());
            assert(all[at] == before[at]);
            assert(is_depth(
                table,
                members,
                i,
                l,
                before[levels_before(members, i) - levels_before(members, 0) + l],
            ));
        } else {
            lemma_levels_grow(members, k, i);
            lemma_levels_grow(members, i + 1, hi);
            assert(all[at] == here[at - levels_before(members, k)]);
            assert(is_depth(
                table,
                members,
                i,
                l,
                here[levels_before(members, i) - levels_before(members, k) + l],
            ));
        }
    }
}

// ------------------------------------------------------------------------- lines

/// Whether no newline stands in the line.
pub open spec fn unbroken(line: Seq<u8>) -> bool {
    forall|i: int| 0 <= i < line.len() ==> #[trigger] line[i] != 0x0a
}

/// What is read of a line and of what stands behind it.
#[verifier::rlimit(60)]
#[verifier::spinoff_prover]
proof fn lemma_first(parser: Json<'_>, line: Seq<u8>, rest: Seq<u8>)
    requires
        unbroken(line),
        (line + seq![0x0au8] + rest).len() <= usize::MAX,
    ensures
        ({
            let table = feed::names(parser.symbols@);
            let message = wire_format::message_spec(table, line, 0, 0);
            parser.decoding(line + seq![0x0au8] + rest) == match message.end {
                Ok(end) => if wire_format::skip_blanks(line, end) == line.len() {
                    then_reads(message.events, line.len() as int + 1, parser.decoding(rest))
                } else {
                    Decoding {
                        events: message.events,
                        outcome: Err(FeedError::Malformed { offset: 0 }),
                    }
                },
                Err(error) => Decoding { events: message.events, outcome: Err(error) },
            }
        }),
{
    let table = feed::names(parser.symbols@);
    let bytes = line + seq![0x0au8];
    let size = bytes.len() as int;
    assert forall|i: int| 0 <= i < line.len() implies bytes[i] != 0x0a by {
        assert(bytes[i] == line[i]);
    }
    assert(bytes[line.len() as int] == 0x0a);
    digits_of::lemma_find_byte_is(bytes, 0, 0x0a, line.len() as int);
    assert(bytes.take(line.len() as int) =~= line);
    let message = wire_format::message_spec(table, line, 0, 0);
    assert(digits_of::find_byte(bytes, size, 0x0a) == size);
    assert(wire_format::lines_spec(table, bytes, size) == Decoding::stop(Ok(size as usize)));
    wire_format::lemma_resumes(table, bytes, rest);
    let alone = wire_format::lines_spec(table, bytes, 0);
    if message.end matches Ok(end) && wire_format::skip_blanks(line, end) == line.len() {
        assert(alone.events =~= message.events);
        assert(bytes.skip(size) + rest =~= rest);
        assert(parser.decoding(bytes + rest) =~= then_reads(
            message.events,
            size,
            parser.decoding(rest),
        ));
    }
}

/// A line whose members can all be read gives an event for each level in it, in
/// order, and then the trade that it tells of, if it does. Members come in any
/// order, other members among them are passed over, blanks may stand between any
/// two tokens, and where a key comes twice the last counts. Then the next line is
/// read.
#[verifier::rlimit(60)]
#[verifier::spinoff_prover]
pub proof fn lemma_line_is_read(
    parser: Json<'_>,
    lead: Seq<u8>,
    members: Seq<Member>,
    tail: Seq<u8>,
    rest: Seq<u8>,
) -> (events: Seq<Event>)
    requires
        blank(lead),
        blank(tail),
        members.len() > 0,
        all_members(members),
        forall|i: int|
            #![trigger members[i]]
            0 <= i < members.len() ==> readable(parser.symbols@, members, i),
        is_trade(members) ==> last_of(members, 0x73, members.len() as int) >= 0,
        unbroken(line_text(lead, members, tail)),
        (line_text(lead, members, tail) + seq![0x0au8] + rest).len() <= usize::MAX,
    ensures
        parser.decoding(line_text(lead, members, tail) + seq![0x0au8] + rest) == then_reads(
            events,
            line_text(lead, members, tail).len() as int + 1,
            parser.decoding(rest),
        ),
        is_trade(members) ==> events.len() > 0 && is_print(
            parser.symbols@,
            members,
            events.last(),
        ) && are_depth(
            parser.symbols@,
            members,
            0,
            members.len() as int,
            events.drop_last(),
        ),
        !is_trade(members) ==> are_depth(
            parser.symbols@,
            members,
            0,
            members.len() as int,
            events,
        ),
{
    reveal(has_heard);
    let table = parser.symbols@;
    let line = line_text(lead, members, tail);
    lemma_first(parser, line, rest);
    lemma_line_opens(lead, members, tail);
    let (depth, said) = lemma_all_members_read(table, lead, members, tail);
    let word = seq![0x74u8, 0x72, 0x61, 0x64, 0x65];
    assert(word =~= wire_format::trade_word());
    assert(is_trade(members) <==> said.kind == Some(wire_format::trade_word()));
    if is_trade(members) {
        let print = wire_format::trade_event(said, said.symbol->0);
        assert(is_print(table, members, print));
        let events = depth.push(print);
        assert(events.drop_last() =~= depth);
        events
    } else {
        depth
    }
}

/// A trade that names no symbol is malformed.
#[verifier::rlimit(30)]
pub proof fn lemma_nameless_trade_is_refused(
    parser: Json<'_>,
    lead: Seq<u8>,
    members: Seq<Member>,
    tail: Seq<u8>,
    rest: Seq<u8>,
)
    requires
        blank(lead),
        blank(tail),
        members.len() > 0,
        all_members(members),
        forall|i: int|
            #![trigger members[i]]
            0 <= i < members.len() ==> readable(parser.symbols@, members, i),
        is_trade(members),
        last_of(members, 0x73, members.len() as int) < 0,
        unbroken(line_text(lead, members, tail)),
        (line_text(lead, members, tail) + seq![0x0au8] + rest).len() <= usize::MAX,
    ensures
        parser.decoding(line_text(lead, members, tail) + seq![0x0au8] + rest).outcome == Err::<
            usize,
            FeedError,
        >(FeedError::Malformed { offset: 0 }),
        are_depth(
            parser.symbols@,
            members,
            0,
            members.len() as int,
            parser.decoding(line_text(lead, members, tail) + seq![0x0au8] + rest).events,
        ),
{
    reveal(has_heard);
    let table = parser.symbols@;
    let line = line_text(lead, members, tail);
    lemma_first(parser, line, rest);
    lemma_line_opens(lead, members, tail);
    let (depth, said) = lemma_all_members_read(table, lead, members, tail);
    let word = seq![0x74u8, 0x72, 0x61, 0x64, 0x65];
    assert(word =~= wire_format::trade_word());
}

/// Anything but blanks behind the closing brace is malformed.
#[verifier::rlimit(30)]
pub proof fn lemma_more_on_the_line_is_refused(
    parser: Json<'_>,
    lead: Seq<u8>,
    members: Seq<Member>,
    tail: Seq<u8>,
    rest: Seq<u8>,
)
    requires
        blank(lead),
        !blank(tail),
        members.len() > 0,
        all_members(members),
        forall|i: int|
            #![trigger members[i]]
            0 <= i < members.len() ==> readable(parser.symbols@, members, i),
        unbroken(line_text(lead, members, tail)),
        (line_text(lead, members, tail) + seq![0x0au8] + rest).len() <= usize::MAX,
    ensures
        parser.decoding(line_text(lead, members, tail) + seq![0x0au8] + rest).outcome == Err::<
            usize,
            FeedError,
        >(FeedError::Malformed { offset: 0 }),
{
    let line = line_text(lead, members, tail);
    lemma_first(parser, line, rest);
    lemma_line_opens(lead, members, tail);
    let (depth, said) = lemma_all_members_read(parser.symbols@, lead, members, tail);
}

/// A line that does not start with a brace is malformed, and so is an empty one.
pub proof fn lemma_no_brace_is_refused(
    parser: Json<'_>,
    lead: Seq<u8>,
    more: Seq<u8>,
    rest: Seq<u8>,
)
    requires
        blank(lead),
        more.len() > 0 ==> more[0] != 0x7b && more[0] != 0x20 && more[0] != 0x09 && more[0]
            != 0x0d,
        unbroken(lead + more),
        (lead + more + seq![0x0au8] + rest).len() <= usize::MAX,
    ensures
        parser.decoding(lead + more + seq![0x0au8] + rest) == refused(
            FeedError::Malformed { offset: 0 },
        ),
{
    let line = lead + more;
    lemma_first(parser, line, rest);
    assert(line.subrange(0, lead.len() as int) =~= lead);
    values::lemma_blanks_skipped(line, 0, lead);
}

/// Members, each with a comma behind it.
pub open spec fn listed_text(members: Seq<Member>) -> Seq<u8> {
    if members.len() == 0 {
        Seq::empty()
    } else {
        members_text(members) + seq![0x2cu8]
    }
}

/// Whether no member can be read from `at` on.
spec fn no_member(table: Seq<&[u8]>, line: Seq<u8>, at: int) -> bool {
    forall|fields: Fields|
        #![trigger wire_format::member_at(feed::names(table), line, at, 0, fields)]
        wire_format::member_at(feed::names(table), line, at, 0, fields) == (Members {
            events: Seq::empty(),
            result: Err(FeedError::Malformed { offset: 0 }),
        })
}

/// Members with commas behind them, and then none.
#[verifier::rlimit(60)]
#[verifier::spinoff_prover]
proof fn lemma_no_member(
    table: Seq<&[u8]>,
    line: Seq<u8>,
    from: int,
    members: Seq<Member>,
    tail: Seq<u8>,
)
    requires
        stands(line, from, listed_text(members) + tail),
        all_members(members),
        forall|i: int|
            #![trigger members[i]]
            0 <= i < members.len() ==> readable(table, members, i),
        no_member(table, line, (from + listed_text(members).len()) as int),
    ensures
        ({
            let read = wire_format::members_spec(
                feed::names(table),
                line,
                from,
                0,
                wire_format::no_fields(),
            );
            &&& are_depth(table, members, 0, members.len() as int, read.events)
            &&& read.result == Err::<(Fields, int), FeedError>(FeedError::Malformed { offset: 0 })
        }),
{
    let names = feed::names(table);
    let n = members.len() as int;
    lemma_nothing_heard(table, members);
    let close = seq![0x2cu8] + tail;
    let next = (from + listed_text(members).len()) as int;
    if n == 0 {
        assert(next == from);
        assert(wire_format::members_spec(
            names,
            line,
            from,
            0,
            wire_format::no_fields(),
        ).events =~= Seq::empty());
    } else {
        assert(members.skip(0) =~= members);
        assert(listed_text(members) + tail =~= members_text(members) + close);
        let (before, fields, at) = lemma_members_read(
            table,
            line,
            from,
            members,
            0,
            n - 1,
            wire_format::no_fields(),
            close,
        );
        let last = members[n - 1];
        let only = members.skip(n - 1);
        assert(only.len() == 1 && only[0] == last);
        let text = member_text(last) + seq![0x2cu8];
        assert(members_text(only) + close =~= text + tail);
        digits_of::lemma_stands_split(line, at, text, tail);
        assert(readable(table, members, n - 1));
        let (here, said) = lemma_member_read(table, line, at, members, n - 1, fields, 0x2c);
        lemma_key_read(line, at, last, 0x2c);
        assert((at + text.len()) as int == next);
        let stopped = wire_format::members_spec(names, line, next, 0, said);
        assert(stopped.events =~= Seq::empty());
        assert(here + Seq::<Event>::empty() =~= here);
        lemma_depth_adds(table, members, n - 1, n, here, Seq::empty());
        lemma_depth_joins(table, members, n - 1, n, before, here);
        assert(before + (here + stopped.events) =~= before + here);
    }
}

/// A line of members with commas behind them, and then none.
#[verifier::rlimit(30)]
proof fn lemma_line_without(
    parser: Json<'_>,
    lead: Seq<u8>,
    members: Seq<Member>,
    tail: Seq<u8>,
    rest: Seq<u8>,
)
    requires
        blank(lead),
        all_members(members),
        forall|i: int|
            #![trigger members[i]]
            0 <= i < members.len() ==> readable(parser.symbols@, members, i),
        ({
            let line = (lead + seq![0x7bu8]) + (listed_text(members) + tail);
            &&& unbroken(line)
            &&& (line + seq![0x0au8] + rest).len() <= usize::MAX
            &&& no_member(
                parser.symbols@,
                line,
                (lead.len() + 1 + listed_text(members).len()) as int,
            )
        }),
    ensures
        ({
            let line = (lead + seq![0x7bu8]) + (listed_text(members) + tail);
            let read = parser.decoding(line + seq![0x0au8] + rest);
            &&& are_depth(parser.symbols@, members, 0, members.len() as int, read.events)
            &&& read.outcome == Err::<usize, FeedError>(FeedError::Malformed { offset: 0 })
        }),
{
    let table = parser.symbols@;
    let line = (lead + seq![0x7bu8]) + (listed_text(members) + tail);
    lemma_first(parser, line, rest);
    assert(line.subrange(0, line.len() as int) =~= line);
    digits_of::lemma_stands_split(line, 0, lead + seq![0x7bu8], listed_text(members) + tail);
    values::lemma_byte_read(line, 0, lead, 0x7b);
    lemma_no_member(table, line, (lead.len() + 1) as int, members, tail);
}

/// What stands behind listed members.
proof fn lemma_tail_stands(lead: Seq<u8>, members: Seq<Member>, tail: Seq<u8>)
    ensures
        ({
            let line = (lead + seq![0x7bu8]) + (listed_text(members) + tail);
            let at = (lead.len() + 1 + listed_text(members).len()) as int;
            stands(line, at, tail) && line.len() == at + tail.len()
        }),
{
    let line = (lead + seq![0x7bu8]) + (listed_text(members) + tail);
    let at = (lead.len() + 1 + listed_text(members).len()) as int;
    assert(line.subrange(at, (at + tail.len()) as int) =~= tail);
}

/// Where the next key should be but is not, the line is malformed: in empty
/// braces, behind a last comma, or where a key has no quote. The levels before it
/// stand.
#[verifier::rlimit(30)]
pub proof fn lemma_no_key_is_refused(
    parser: Json<'_>,
    lead: Seq<u8>,
    members: Seq<Member>,
    gap: Seq<u8>,
    more: Seq<u8>,
    rest: Seq<u8>,
)
    requires
        blank(lead),
        blank(gap),
        all_members(members),
        forall|i: int|
            #![trigger members[i]]
            0 <= i < members.len() ==> readable(parser.symbols@, members, i),
        more.len() > 0 ==> more[0] != 0x22 && more[0] != 0x20 && more[0] != 0x09 && more[0]
            != 0x0d,
        unbroken((lead + seq![0x7bu8]) + (listed_text(members) + (gap + more))),
        ((lead + seq![0x7bu8]) + (listed_text(members) + (gap + more)) + seq![0x0au8] + rest).len()
            <= usize::MAX,
    ensures
        ({
            let line = (lead + seq![0x7bu8]) + (listed_text(members) + (gap + more));
            let read = parser.decoding(line + seq![0x0au8] + rest);
            &&& are_depth(parser.symbols@, members, 0, members.len() as int, read.events)
            &&& read.outcome == Err::<usize, FeedError>(FeedError::Malformed { offset: 0 })
        }),
{
    let tail = gap + more;
    let line = (lead + seq![0x7bu8]) + (listed_text(members) + tail);
    let at = (lead.len() + 1 + listed_text(members).len()) as int;
    lemma_tail_stands(lead, members, tail);
    digits_of::lemma_stands_split(line, at, gap, more);
    if more.len() > 0 {
        digits_of::lemma_stands_at(line, (at + gap.len()) as int, more, 0);
    }
    values::lemma_blanks_skipped(line, at, gap);
    lemma_line_without(parser, lead, members, tail, rest);
}

/// Members with commas between them, and then neither a comma nor the brace.
#[verifier::rlimit(60)]
#[verifier::spinoff_prover]
proof fn lemma_no_comma(
    table: Seq<&[u8]>,
    line: Seq<u8>,
    from: int,
    members: Seq<Member>,
    byte: u8,
    more: Seq<u8>,
)
    requires
        stands(line, from, members_text(members) + (seq![byte] + more)),
        members.len() > 0,
        all_members(members),
        forall|i: int|
            #![trigger members[i]]
            0 <= i < members.len() ==> readable(table, members, i),
        ends_value(members.last().value, byte),
        byte != 0x2c && byte != 0x7d,
    ensures
        ({
            let read = wire_format::members_spec(
                feed::names(table),
                line,
                from,
                0,
                wire_format::no_fields(),
            );
            &&& are_depth(table, members, 0, members.len() as int, read.events)
            &&& read.result == Err::<(Fields, int), FeedError>(FeedError::Malformed { offset: 0 })
        }),
{
    let names = feed::names(table);
    let close = seq![byte] + more;
    let n = members.len() as int;
    lemma_nothing_heard(table, members);
    assert(members.skip(0) =~= members);
    let (before, fields, at) = lemma_members_read(
        table,
        line,
        from,
        members,
        0,
        n - 1,
        wire_format::no_fields(),
        close,
    );
    let last = members[n - 1];
    let only = members.skip(n - 1);
    assert(only.len() == 1 && only[0] == last);
    let text = member_text(last) + seq![byte];
    assert(members_text(only) + close =~= text + more);
    digits_of::lemma_stands_split(line, at, text, more);
    assert(readable(table, members, n - 1));
    let (here, said) = lemma_member_read(table, line, at, members, n - 1, fields, byte);
    lemma_key_read(line, at, last, byte);
    let rest = wire_format::members_spec(names, line, at, 0, fields);
    assert(rest.events =~= here);
    assert(here + Seq::<Event>::empty() =~= here);
    lemma_depth_adds(table, members, n - 1, n, here, Seq::empty());
    lemma_depth_joins(table, members, n - 1, n, before, here);
}

/// A key with an escape in it is not read, and makes the line malformed.
#[verifier::rlimit(30)]
pub proof fn lemma_escaped_key_is_refused(
    parser: Json<'_>,
    lead: Seq<u8>,
    members: Seq<Member>,
    gap: Seq<u8>,
    key: Seq<u8>,
    more: Seq<u8>,
    rest: Seq<u8>,
)
    requires
        blank(lead),
        blank(gap),
        escaped(key),
        !plain(key),
        all_members(members),
        forall|i: int|
            #![trigger members[i]]
            0 <= i < members.len() ==> readable(parser.symbols@, members, i),
        unbroken((lead + seq![0x7bu8]) + (listed_text(members) + ((gap + quoted(key)) + more))),
        ((lead + seq![0x7bu8]) + (listed_text(members) + ((gap + quoted(key)) + more))
            + seq![0x0au8] + rest).len() <= usize::MAX,
    ensures
        ({
            let line = (lead + seq![0x7bu8]) + (listed_text(members) + ((gap + quoted(key))
                + more));
            let read = parser.decoding(line + seq![0x0au8] + rest);
            &&& are_depth(parser.symbols@, members, 0, members.len() as int, read.events)
            &&& read.outcome == Err::<usize, FeedError>(FeedError::Malformed { offset: 0 })
        }),
{
    let tail = (gap + quoted(key)) + more;
    let line = (lead + seq![0x7bu8]) + (listed_text(members) + tail);
    let at = (lead.len() + 1 + listed_text(members).len()) as int;
    lemma_tail_stands(lead, members, tail);
    digits_of::lemma_stands_split(line, at, gap + quoted(key), more);
    values::lemma_string_not_read(line, at, gap, key);
    lemma_line_without(parser, lead, members, tail, rest);
}

/// A key must be followed by a colon.
#[verifier::rlimit(60)]
#[verifier::spinoff_prover]
pub proof fn lemma_no_colon_is_refused(
    parser: Json<'_>,
    lead: Seq<u8>,
    members: Seq<Member>,
    gap: Seq<u8>,
    key: Seq<u8>,
    colon: Seq<u8>,
    more: Seq<u8>,
    rest: Seq<u8>,
)
    requires
        blank(lead),
        blank(gap),
        plain(key),
        blank(colon),
        more.len() > 0 ==> more[0] != 0x3a && more[0] != 0x20 && more[0] != 0x09 && more[0]
            != 0x0d,
        all_members(members),
        forall|i: int|
            #![trigger members[i]]
            0 <= i < members.len() ==> readable(parser.symbols@, members, i),
        unbroken(
            (lead + seq![0x7bu8]) + (listed_text(members) + ((gap + quoted(key)) + (colon
                + more))),
        ),
        ((lead + seq![0x7bu8]) + (listed_text(members) + ((gap + quoted(key)) + (colon + more)))
            + seq![0x0au8] + rest).len() <= usize::MAX,
    ensures
        ({
            let line = (lead + seq![0x7bu8]) + (listed_text(members) + ((gap + quoted(key)) + (
            colon + more)));
            let read = parser.decoding(line + seq![0x0au8] + rest);
            &&& are_depth(parser.symbols@, members, 0, members.len() as int, read.events)
            &&& read.outcome == Err::<usize, FeedError>(FeedError::Malformed { offset: 0 })
        }),
{
    let tail = (gap + quoted(key)) + (colon + more);
    let line = (lead + seq![0x7bu8]) + (listed_text(members) + tail);
    let at = (lead.len() + 1 + listed_text(members).len()) as int;
    let named = (at + gap.len() + quoted(key).len()) as int;
    lemma_tail_stands(lead, members, tail);
    digits_of::lemma_stands_split(line, at, gap + quoted(key), colon + more);
    values::lemma_string_read(line, at, gap, key);
    digits_of::lemma_stands_split(line, named, colon, more);
    if more.len() > 0 {
        digits_of::lemma_stands_at(line, (named + colon.len()) as int, more, 0);
    }
    values::lemma_blanks_skipped(line, named, colon);
    lemma_line_without(parser, lead, members, tail, rest);
}

/// A member must be followed by a comma or the closing brace: any other byte
/// there is malformed. The levels up to there stand.
#[verifier::rlimit(30)]
pub proof fn lemma_no_comma_is_refused(
    parser: Json<'_>,
    lead: Seq<u8>,
    members: Seq<Member>,
    byte: u8,
    more: Seq<u8>,
    rest: Seq<u8>,
)
    requires
        blank(lead),
        members.len() > 0,
        all_members(members),
        forall|i: int|
            #![trigger members[i]]
            0 <= i < members.len() ==> readable(parser.symbols@, members, i),
        ends_value(members.last().value, byte),
        byte != 0x2c && byte != 0x7d,
        unbroken((lead + seq![0x7bu8]) + (members_text(members) + (seq![byte] + more))),
        ((lead + seq![0x7bu8]) + (members_text(members) + (seq![byte] + more)) + seq![0x0au8]
            + rest).len() <= usize::MAX,
    ensures
        ({
            let line = (lead + seq![0x7bu8]) + (members_text(members) + (seq![byte] + more));
            let read = parser.decoding(line + seq![0x0au8] + rest);
            &&& are_depth(parser.symbols@, members, 0, members.len() as int, read.events)
            &&& read.outcome == Err::<usize, FeedError>(FeedError::Malformed { offset: 0 })
        }),
{
    let table = parser.symbols@;
    let close = seq![byte] + more;
    let line = (lead + seq![0x7bu8]) + (members_text(members) + close);
    lemma_first(parser, line, rest);
    assert(line.subrange(0, line.len() as int) =~= line);
    digits_of::lemma_stands_split(line, 0, lead + seq![0x7bu8], members_text(members) + close);
    values::lemma_byte_read(line, 0, lead, 0x7b);
    lemma_no_comma(table, line, (lead.len() + 1) as int, members, byte, more);
}

/// Whether the value is text, a word, a number or levels. Text may have escapes.
pub open spec fn is_told(value: Value) -> bool {
    match value {
        Value::Text(s) => plain(s),
        Value::Word(_) => true,
        Value::Count(s) => digits(s) && s.len() >= 1,
        Value::Levels { .. } => true,
        Value::Loose(loose) => is_escaped(loose) || is_foreign(loose),
    }
}

/// Whether the value is one that no key asks for: a number or word that starts
/// neither as a number does nor as `true` and `false` do, or nested structure.
pub open spec fn is_foreign(loose: Loose) -> bool {
    &&& is_loose(loose)
    &&& match loose {
        Loose::Text(_) => false,
        Loose::Scalar(s) => !(0x30 <= s[0] <= 0x39) && s[0] != 0x74 && s[0] != 0x66,
        Loose::Nested(tokens) => tokens[0] == Token::Open(0x7b),
    }
}

/// Whether the value is text with an escape in it.
pub open spec fn is_escaped(loose: Loose) -> bool {
    loose matches Loose::Text(s) && escaped(s) && !plain(s)
}

/// Whether the member at `k` is one that is needed and cannot be used: the wrong
/// form of value for its key, text with an escape, text that is no decimal or does
/// not fit, a number that does not fit, or levels before any symbol.
pub open spec fn is_unusable(members: Seq<Member>, k: int) -> bool {
    let member = members[k];
    let value = member.value;
    &&& is_told(value)
    &&& {
        ||| (keyed(member, 0x65) || keyed(member, 0x73) || keyed(member, 0x70) || keyed(
            member,
            0x71,
        )) && value !is Text
        ||| (keyed(member, 0x70) || keyed(member, 0x71)) && !is_amount(value)
        ||| keyed(member, 0x6d) && value !is Word
        ||| keyed(member, 0x74) && !(value matches Value::Count(s) && written(s) <= u64::MAX)
        ||| (keyed(member, 0x62) || keyed(member, 0x61)) && (value !is Levels || last_of(
            members,
            0x73,
            k,
        ) < 0)
    }
}

/// Whether the member at `k` names a symbol that is not listed.
pub open spec fn is_unlisted(table: Seq<&[u8]>, members: Seq<Member>, k: int) -> bool {
    &&& keyed(members[k], 0x73)
    &&& members[k].value matches Value::Text(s) && plain(s) && forall|i: int|
        0 <= i < table.len() ==> #[trigger] table[i]@ != s
}

/// The first byte of a value, behind the blanks.
#[verifier::rlimit(30)]
proof fn lemma_value_starts(line: Seq<u8>, at: int, member: Member, end: u8)
    requires
        is_member(member),
        is_told(member.value),
        stands(line, at, (member.gap + value_text(member.value)) + (member.after + seq![end])),
    ensures
        ({
            let from = (at + member.gap.len()) as int;
            &&& wire_format::skip_blanks(line, at) == from
            &&& from < line.len()
            &&& match member.value {
                Value::Text(_) => line[from] == 0x22,
                Value::Word(b) => line[from] == (if b {
                    0x74u8
                } else {
                    0x66u8
                }),
                Value::Count(_) => 0x30 <= line[from] <= 0x39,
                Value::Levels { .. } => line[from] == 0x5b,
                Value::Loose(loose) => if is_escaped(loose) {
                    line[from] == 0x22
                } else {
                    &&& !(0x30 <= line[from] <= 0x39)
                    &&& line[from] != 0x74 && line[from] != 0x66
                    &&& line[from] != 0x22 && line[from] != 0x5b
                },
            }
        }),
{
    let text = value_text(member.value);
    let from = (at + member.gap.len()) as int;
    digits_of::lemma_stands_split(line, at, member.gap + text, member.after + seq![end]);
    digits_of::lemma_stands_split(line, at, member.gap, text);
    if let Value::Loose(Loose::Nested(tokens)) = member.value {
        assert(text == values::token_text(tokens[0]) + values::tokens_text(tokens.skip(1)));
        assert(text[0] == 0x7b);
    }
    digits_of::lemma_stands_at(line, from, text, 0);
    values::lemma_blanks_skipped(line, at, member.gap);
}

#[verifier::rlimit(60)]
#[verifier::spinoff_prover]
proof fn lemma_value_not_read(
    table: Seq<&[u8]>,
    line: Seq<u8>,
    at: int,
    members: Seq<Member>,
    k: int,
    fields: Fields,
    end: u8,
)
    requires
        0 <= k < members.len(),
        is_member(members[k]),
        has_heard(table, members, k, fields),
        is_unusable(members, k) || is_unlisted(table, members, k),
        stands(
            line,
            at,
            (members[k].gap + value_text(members[k].value)) + (members[k].after + seq![end]),
        ),
        end == 0x2c || end == 0x7d,
    ensures
        wire_format::member_spec(
            feed::names(table),
            line,
            at,
            0,
            members[k].key,
            fields,
        ) == (Members {
            events: Seq::empty(),
            result: Err(
                if is_unlisted(table, members, k) {
                    FeedError::UnknownSymbol { offset: 0 }
                } else {
                    FeedError::Malformed { offset: 0 }
                },
            ),
        }),
{
    reveal(has_heard);
    let member = members[k];
    let gap = member.gap;
    let value = value_text(member.value);
    let from = (at + gap.len()) as int;
    let behind = (from + value.len()) as int;
    lemma_keyed(member);
    lemma_value_starts(line, at, member, end);
    digits_of::lemma_stands_split(line, at, gap + value, member.after + seq![end]);
    if wire_format::holds_word(line, from, wire_format::true_word()) {
        assert(line.subrange(from, from + 4)[0] == 0x74);
    }
    if wire_format::holds_word(line, from, wire_format::false_word()) {
        assert(line.subrange(from, from + 5)[0] == 0x66);
    }
    if let Value::Text(s) = member.value {
        values::lemma_string_read(line, at, gap, s);
        text::lemma_found_first(table, s, 0);
        if !is_amount(member.value) {
            assert forall|n: int| worth(s, n) implies n > i64::MAX by {
                if n <= i64::MAX {
                    assert(worth(s, n));
                }
            }
            values::lemma_decimal_not_read(line, at, gap, s);
        }
    }
    if let Value::Loose(Loose::Text(s)) = member.value {
        values::lemma_string_not_read(line, at, gap, s);
    }
    if let Value::Count(s) = member.value {
        if written(s) > u64::MAX {
            digits_of::lemma_stands_split(line, at, gap, value);
            values::lemma_byte_read(line, behind, member.after, end);
            if member.after.len() > 0 {
                digits_of::lemma_stands_split(line, behind, member.after, seq![end]);
                digits_of::lemma_stands_at(line, behind, member.after, 0);
                assert(member.after[0] < 0x30);
            }
            assert forall|i: int| from <= i < behind implies digits_of::is_digit(
                #[trigger] line[i],
            ) by {
                digits_of::lemma_stands_at(line, from, s, i - from);
                assert(0x30 <= s[i - from] <= 0x39);
            }
            digits_of::lemma_skip_digits_is(line, from, behind);
            text::lemma_written(s);
        }
    } else {
        assert(digits_of::skip_digits(line, from) == from);
    }
}

/// A line stops being read at the first member that is needed and cannot be used:
/// a symbol that is not listed is unknown, anything else malformed. The levels
/// before it stand.
#[verifier::rlimit(30)]
pub proof fn lemma_unusable_member_stops(
    parser: Json<'_>,
    lead: Seq<u8>,
    members: Seq<Member>,
    tail: Seq<u8>,
    k: int,
    rest: Seq<u8>,
)
    requires
        blank(lead),
        0 <= k < members.len(),
        all_members(members),
        forall|i: int|
            #![trigger members[i]]
            0 <= i < k ==> readable(parser.symbols@, members, i),
        is_unusable(members, k) || is_unlisted(parser.symbols@, members, k),
        unbroken(line_text(lead, members, tail)),
        (line_text(lead, members, tail) + seq![0x0au8] + rest).len() <= usize::MAX,
    ensures
        ({
            let read = parser.decoding(line_text(lead, members, tail) + seq![0x0au8] + rest);
            &&& are_depth(parser.symbols@, members, 0, k, read.events)
            &&& read.outcome == Err::<usize, FeedError>(
                if is_unlisted(parser.symbols@, members, k) {
                    FeedError::UnknownSymbol { offset: 0 }
                } else {
                    FeedError::Malformed { offset: 0 }
                },
            )
        }),
{
    let table = parser.symbols@;
    let line = line_text(lead, members, tail);
    lemma_first(parser, line, rest);
    let (before, fields, from, end) = lemma_member_found(table, lead, members, tail, k);
    lemma_value_not_read(table, line, from, members, k, fields, end);
    assert(before + Seq::<Event>::empty() =~= before);
}

/// The member at `k` found on a line, and its value.
#[verifier::rlimit(60)]
#[verifier::spinoff_prover]
proof fn lemma_member_found(
    table: Seq<&[u8]>,
    lead: Seq<u8>,
    members: Seq<Member>,
    tail: Seq<u8>,
    k: int,
) -> (out: (Seq<Event>, Fields, int, u8))
    requires
        blank(lead),
        0 <= k < members.len(),
        all_members(members),
        forall|i: int| #![trigger members[i]] 0 <= i < k ==> readable(table, members, i),
    ensures
        ({
            let line = line_text(lead, members, tail);
            let names = feed::names(table);
            let member = members[k];
            let read = wire_format::member_spec(names, line, out.2, 0, member.key, out.1);
            &&& wire_format::expect_spec(line, 0, 0x7b) == Some((lead.len() + 1) as int)
            &&& out.3 == 0x2c || out.3 == 0x7d
            &&& stands(
                line,
                out.2,
                (member.gap + value_text(member.value)) + (member.after + seq![out.3]),
            )
            &&& has_heard(table, members, k, out.1)
            &&& are_depth(table, members, 0, k, out.0)
            &&& read.result is Err ==> wire_format::members_spec(
                names,
                line,
                (lead.len() + 1) as int,
                0,
                wire_format::no_fields(),
            ) == (Members { events: out.0 + read.events, result: read.result })
        }),
{
    let line = line_text(lead, members, tail);
    let close = seq![0x7du8] + tail;
    lemma_line_opens(lead, members, tail);
    lemma_nothing_heard(table, members);
    let (before, fields, at) = lemma_members_read(
        table,
        line,
        (lead.len() + 1) as int,
        members,
        0,
        k,
        wire_format::no_fields(),
        close,
    );
    let member = members[k];
    let now = members.skip(k);
    let later = members.skip(k + 1);
    assert(now[0] == member);
    assert(now.skip(1) =~= later);
    let end = if now.len() == 1 {
        0x7du8
    } else {
        0x2cu8
    };
    let text = member_text(member) + seq![end];
    let more = if now.len() == 1 {
        tail
    } else {
        members_text(later) + close
    };
    assert(members_text(now) + close =~= text + more);
    digits_of::lemma_stands_split(line, at, text, more);
    lemma_key_read(line, at, member, end);
    let named = at + member.before.len() + quoted(member.key).len();
    let from = (named + member.colon.len() + 1) as int;
    (before, fields, from, end)
}

/// A level whose price or quantity cannot be read ends the line as malformed. The
/// levels before it stand.
#[verifier::rlimit(60)]
#[verifier::spinoff_prover]
pub proof fn lemma_unreadable_level_stops(
    parser: Json<'_>,
    lead: Seq<u8>,
    members: Seq<Member>,
    tail: Seq<u8>,
    k: int,
    j: int,
    rest: Seq<u8>,
) -> (events: (Seq<Event>, Seq<Event>))
    requires
        blank(lead),
        0 <= k < members.len(),
        all_members(members),
        forall|i: int|
            #![trigger members[i]]
            0 <= i < k ==> readable(parser.symbols@, members, i),
        keyed(members[k], 0x62) || keyed(members[k], 0x61),
        last_of(members, 0x73, k) >= 0,
        members[k].value is Levels,
        0 <= j < levels_of(members[k]).len(),
        forall|i: int|
            #![trigger levels_of(members[k])[i]]
            0 <= i < levels_of(members[k]).len() ==> spaced(levels_of(members[k])[i]),
        forall|i: int|
            #![trigger levels_of(members[k])[i]]
            0 <= i < j ==> priced(levels_of(members[k])[i]),
        unpriced(levels_of(members[k])[j]),
        unbroken(line_text(lead, members, tail)),
        (line_text(lead, members, tail) + seq![0x0au8] + rest).len() <= usize::MAX,
    ensures
        parser.decoding(line_text(lead, members, tail) + seq![0x0au8] + rest) == (Decoding {
            events: events.0 + events.1,
            outcome: Err(FeedError::Malformed { offset: 0 }),
        }),
        are_depth(parser.symbols@, members, 0, k, events.0),
        events.1.len() == j,
        forall|i: int|
            #![trigger events.1[i]]
            0 <= i < j ==> is_depth(parser.symbols@, members, k, i, events.1[i]),
{
    let table = parser.symbols@;
    let line = line_text(lead, members, tail);
    lemma_first(parser, line, rest);
    let (before, fields, from, end) = lemma_member_found(table, lead, members, tail, k);
    let here = lemma_levels_unread(table, line, from, members, k, j, fields, end);
    (before, here)
}

#[verifier::rlimit(60)]
#[verifier::spinoff_prover]
proof fn lemma_levels_unread(
    table: Seq<&[u8]>,
    line: Seq<u8>,
    at: int,
    members: Seq<Member>,
    k: int,
    j: int,
    fields: Fields,
    end: u8,
) -> (events: Seq<Event>)
    requires
        0 <= k < members.len(),
        is_member(members[k]),
        has_heard(table, members, k, fields),
        stands(
            line,
            at,
            (members[k].gap + value_text(members[k].value)) + (members[k].after + seq![end]),
        ),
        keyed(members[k], 0x62) || keyed(members[k], 0x61),
        last_of(members, 0x73, k) >= 0,
        members[k].value is Levels,
        0 <= j < levels_of(members[k]).len(),
        forall|i: int|
            #![trigger levels_of(members[k])[i]]
            0 <= i < levels_of(members[k]).len() ==> spaced(levels_of(members[k])[i]),
        forall|i: int|
            #![trigger levels_of(members[k])[i]]
            0 <= i < j ==> priced(levels_of(members[k])[i]),
        unpriced(levels_of(members[k])[j]),
    ensures
        wire_format::member_spec(
            feed::names(table),
            line,
            at,
            0,
            members[k].key,
            fields,
        ) == (Members { events, result: Err(FeedError::Malformed { offset: 0 }) }),
        events.len() == j,
        forall|i: int|
            #![trigger events[i]]
            0 <= i < j ==> is_depth(table, members, k, i, events[i]),
{
    reveal(has_heard);
    let member = members[k];
    lemma_keyed(member);
    digits_of::lemma_stands_split(
        line,
        at,
        member.gap + value_text(member.value),
        member.after + seq![end],
    );
    let side = if keyed(member, 0x62) {
        Side::Bid
    } else {
        Side::Ask
    };
    let symbol = fields.symbol->0;
    let levels = levels_of(member);
    values::lemma_list_stopped(
        line,
        at,
        member.gap,
        member.value->inside,
        levels,
        j,
        side,
        symbol,
    )
}

/// A line without its newline is waited for.
pub proof fn lemma_unfinished(parser: Json<'_>, bytes: Seq<u8>)
    requires
        unbroken(bytes),
    ensures
        parser.decoding(bytes) == waits(),
{
    digits_of::lemma_find_byte_is(bytes, 0, 0x0a, bytes.len() as int);
}

} // verus!
