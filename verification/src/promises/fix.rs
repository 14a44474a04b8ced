//! FIX messages: how fields frame them, and what the entries among the fields
//! say, whatever order the fields come in.

use vstd::prelude::*;

use crate::feed;
use crate::feed::fix as wire_format;
use crate::feed::fix::{Body, Entries, Fix, Frame, Pair};
use crate::feed::text as digits_of;
use crate::feed::{Decoding, Event, FeedError, Kind, Parser, Side};
use crate::promises::text;
use crate::promises::text::{decimal, digits, first_at, power, written};
use crate::promises::{refused, then_reads, waits};

verus! {

// ------------------------------------------------------------------------ fields

/// A field of a message.
pub struct Field {
    /// The digits of the tag.
    pub tag: Seq<u8>,
    pub value: Seq<u8>,
}

/// Whether the field can stand on the wire: one to nine digits, and a value
/// without an end of field in it.
pub open spec fn proper(field: Field) -> bool {
    &&& 1 <= field.tag.len() <= 9
    &&& digits(field.tag)
    &&& forall|i: int| 0 <= i < field.value.len() ==> #[trigger] field.value[i] != 0x01
}

/// The number of the field's tag.
pub open spec fn number(field: Field) -> nat {
    written(field.tag)
}

/// The field on the wire.
pub open spec fn sent(field: Field) -> Seq<u8> {
    field.tag + seq![0x3du8] + field.value + seq![0x01u8]
}

/// The fields on the wire, one behind the other.
pub open spec fn joined(fields: Seq<Field>) -> Seq<u8>
    decreases fields.len(),
{
    if fields.len() == 0 {
        Seq::empty()
    } else {
        joined(fields.drop_last()) + sent(fields.last())
    }
}

pub open spec fn all_proper(fields: Seq<Field>) -> bool {
    forall|i: int| 0 <= i < fields.len() ==> proper(#[trigger] fields[i])
}

/// The last field from `lo` on and before `hi` that has `tag`; one before `lo`
/// where none has.
pub open spec fn last_of(fields: Seq<Field>, tag: nat, lo: int, hi: int) -> int
    decreases hi - lo,
{
    if hi <= lo {
        lo - 1
    } else if number(fields[hi - 1]) == tag {
        hi - 1
    } else {
        last_of(fields, tag, lo, hi - 1)
    }
}

/// A field is read back as its number and its value.
#[verifier::rlimit(30)]
proof fn lemma_field_is_read(bytes: Seq<u8>, at: int, field: Field)
    requires
        proper(field),
        digits_of::stands(bytes, at, sent(field)),
    ensures
        wire_format::pair_spec(bytes, at) == (Pair::Field {
            tag: number(field),
            value: field.value,
            next: at + sent(field).len(),
        }),
{
    let whole = sent(field);
    let equals = at + field.tag.len();
    assert forall|i: int| 0 <= i < whole.len() implies bytes[at + i] == #[trigger] whole[i] by {
        digits_of::lemma_stands_at(bytes, at, whole, i);
    }
    assert forall|i: int| at <= i < equals implies digits_of::is_digit(#[trigger] bytes[i]) by {
        assert(whole[i - at] == field.tag[i - at]);
    }
    assert(whole[field.tag.len() as int] == 0x3d);
    digits_of::lemma_skip_digits_is(bytes, at, equals);
    let soh = equals + 1 + field.value.len();
    assert forall|i: int| equals + 1 <= i < soh implies bytes[i] != 0x01 by {
        assert(whole[i - at] == field.value[i - equals - 1]);
    }
    assert(whole[whole.len() - 1] == 0x01);
    digits_of::lemma_find_byte_is(bytes, equals + 1, 0x01, soh);
    assert(bytes.subrange(at, equals) =~= field.tag) by {
        assert forall|i: int| 0 <= i < field.tag.len() implies bytes[at + i] == field.tag[i] by {
            assert(whole[i] == field.tag[i]);
        }
    }
    assert(bytes.subrange(equals + 1, soh) =~= field.value) by {
        assert forall|i: int| 0 <= i < field.value.len() implies bytes[equals + 1 + i]
            == field.value[i] by {
            assert(whole[field.tag.len() + 1 + i] == field.value[i]);
        }
    }
    text::lemma_written(field.tag);
}

/// Each field stands behind the fields before it.
proof fn lemma_field_stands(bytes: Seq<u8>, at: int, fields: Seq<Field>, k: int)
    requires
        digits_of::stands(bytes, at, joined(fields)),
        0 <= k < fields.len(),
    ensures
        digits_of::stands(bytes, (at + joined(fields.take(k)).len()) as int, sent(fields[k])),
        joined(fields.take(k + 1)) == joined(fields.take(k)) + sent(fields[k]),
    decreases fields.len(),
{
    let front = fields.drop_last();
    digits_of::lemma_stands_split(bytes, at, joined(front), sent(fields.last()));
    assert(fields.take(k + 1).drop_last() =~= fields.take(k));
    if k == fields.len() - 1 {
        assert(fields.take(k) =~= front);
    } else {
        assert(front.take(k) =~= fields.take(k));
        lemma_field_stands(bytes, at, front, k);
    }
}

// ---------------------------------------------------------------------- messages

/// What the bytes add up to.
pub open spec fn total(bytes: Seq<u8>) -> nat
    decreases bytes.len(),
{
    if bytes.len() == 0 {
        0
    } else {
        bytes[0] as nat + total(bytes.skip(1))
    }
}

/// A message: its version, its length, its fields, bytes behind them that are no
/// field, which should be none, and its check digits behind `10=`.
pub struct Message {
    pub version: Field,
    pub length: Field,
    pub fields: Seq<Field>,
    pub stray: Seq<u8>,
    pub check: Seq<u8>,
}

/// What the check digits stand for.
pub open spec fn checked(message: Message) -> Seq<u8> {
    sent(message.version) + sent(message.length) + joined(message.fields) + message.stray
}

/// The trailer.
pub open spec fn trailer(message: Message) -> Seq<u8> {
    seq![0x31u8, 0x30, 0x3d] + message.check + seq![0x01u8]
}

/// The message on the wire.
pub open spec fn whole(message: Message) -> Seq<u8> {
    checked(message) + trailer(message)
}

/// Whether the message starts as one does: field 8, then field 9 with the length
/// of what follows in one to eighteen digits. Stray bytes start with no digit.
pub open spec fn headed(message: Message) -> bool {
    &&& proper(message.version)
    &&& proper(message.length)
    &&& all_proper(message.fields)
    &&& number(message.version) == 8
    &&& number(message.length) == 9
    &&& 1 <= message.length.value.len() <= 18
    &&& digits(message.length.value)
    &&& written(message.length.value) == joined(message.fields).len() + message.stray.len()
    &&& message.stray.len() > 0 ==> !(0x30 <= message.stray[0] <= 0x39)
    &&& message.check.len() == 3
}

/// Whether the check digits write what the bytes before them add up to, modulo
/// 256.
pub open spec fn vouched(message: Message) -> bool {
    digits(message.check) && written(message.check) == total(checked(message)) % 256
}

proof fn lemma_total_last(bytes: Seq<u8>)
    requires
        bytes.len() > 0,
    ensures
        total(bytes) == total(bytes.drop_last()) + bytes.last(),
    decreases bytes.len(),
{
    if bytes.len() == 1 {
        assert(bytes.skip(1) =~= Seq::empty());
        assert(bytes.drop_last() =~= Seq::empty());
    } else {
        lemma_total_last(bytes.skip(1));
        assert(bytes.skip(1).drop_last() =~= bytes.drop_last().skip(1));
    }
}

proof fn lemma_total(bytes: Seq<u8>)
    ensures
        total(bytes) == wire_format::byte_sum(bytes),
    decreases bytes.len(),
{
    if bytes.len() > 0 {
        lemma_total_last(bytes);
        lemma_total(bytes.drop_last());
    }
}

/// Where the fields of a message start.
pub open spec fn fields_at(message: Message) -> int {
    (sent(message.version).len() + sent(message.length).len()) as int
}

#[verifier::rlimit(30)]
proof fn lemma_parts_stand(message: Message)
    ensures
        digits_of::stands(whole(message), 0, sent(message.version)),
        digits_of::stands(
            whole(message),
            sent(message.version).len() as int,
            sent(message.length),
        ),
        digits_of::stands(whole(message), fields_at(message), joined(message.fields)),
        fields_at(message) + joined(message.fields).len() + message.stray.len() + trailer(
            message,
        ).len() == whole(message).len(),
        message.stray.len() > 0 ==> whole(message)[(fields_at(message) + joined(
            message.fields,
        ).len()) as int] == message.stray[0],
        whole(message).take(checked(message).len() as int) == checked(message),
        whole(message).skip(checked(message).len() as int) == trailer(message),
{
    let bytes = whole(message);
    let a = sent(message.version);
    let b = sent(message.length);
    let c = joined(message.fields);
    assert(bytes.subrange(0, a.len() as int) =~= a);
    assert(bytes.subrange(a.len() as int, (a.len() + b.len()) as int) =~= b);
    assert(bytes.subrange(
        (a.len() + b.len()) as int,
        (a.len() + b.len() + c.len()) as int,
    ) =~= c);
    assert(bytes.take(checked(message).len() as int) =~= checked(message));
    assert(bytes.skip(checked(message).len() as int) =~= trailer(message));
}

proof fn lemma_framed(message: Message)
    requires
        headed(message),
    ensures
        wire_format::frame_spec(whole(message), 0) == (if vouched(message) {
            Frame::Whole { body: fields_at(message), end: whole(message).len() as int }
        } else {
            Frame::Bad
        }),
{
    let bytes = whole(message);
    let length = message.length;
    let at = checked(message).len() as int;
    reveal(wire_format::frame_spec);
    lemma_parts_stand(message);
    lemma_field_is_read(bytes, 0, message.version);
    lemma_field_is_read(bytes, sent(message.version).len() as int, length);
    text::lemma_written(length.value);
    let end = trailer(message);
    assert(end.len() == 7);
    assert forall|i: int| 0 <= i < 7 implies bytes[at + i] == #[trigger] end[i] by {
        assert(bytes.skip(at)[i] == bytes[at + i]);
    }
    assert(end[0] == 0x31 && end[1] == 0x30 && end[2] == 0x3d && end[6] == 0x01);
    assert(bytes.subrange(at + 3, at + 6) =~= message.check) by {
        assert(end[3] == message.check[0]);
        assert(end[4] == message.check[1]);
        assert(end[5] == message.check[2]);
    }
    assert(bytes.subrange(0, at) =~= checked(message));
    lemma_total(checked(message));
    if digits(message.check) {
        text::lemma_written(message.check);
    } else {
        assert(!digits_of::all_digits(message.check)) by {
            let i = choose|i: int|
                0 <= i < message.check.len() && !(0x30 <= #[trigger] message.check[i] <= 0x39);
            assert(!digits_of::is_digit(message.check[i]));
        }
    }
}

/// A message whose check digits are wrong is malformed, whatever it says.
pub proof fn lemma_wrong_check_is_refused(parser: Fix<'_>, message: Message, rest: Seq<u8>)
    requires
        headed(message),
        !vouched(message),
        (whole(message) + rest).len() <= usize::MAX,
    ensures
        parser.decoding(whole(message) + rest) == refused(FeedError::Malformed { offset: 0 }),
{
    let table = feed::names(parser.symbols@);
    lemma_framed(message);
    assert(wire_format::messages_spec(table, whole(message), 0) =~= Decoding::stop(
        Err(FeedError::Malformed { offset: 0 }),
    ));
    wire_format::lemma_resumes(table, whole(message), rest);
}

/// What is read of a message and of what stands behind it.
#[verifier::rlimit(60)]
#[verifier::spinoff_prover]
proof fn lemma_first(parser: Fix<'_>, message: Message, rest: Seq<u8>)
    requires
        headed(message),
        vouched(message),
        (whole(message) + rest).len() <= usize::MAX,
    ensures
        ({
            let entries = wire_format::message_spec(
                feed::names(parser.symbols@),
                whole(message),
                fields_at(message),
                whole(message).len() - 7,
                0,
            );
            parser.decoding(whole(message) + rest) == match entries.result {
                Ok(()) => then_reads(
                    entries.events,
                    whole(message).len() as int,
                    parser.decoding(rest),
                ),
                Err(error) => Decoding { events: entries.events, outcome: Err(error) },
            }
        }),
{
    let table = feed::names(parser.symbols@);
    let bytes = whole(message);
    let size = bytes.len() as int;
    lemma_framed(message);
    let entries = wire_format::message_spec(table, bytes, fields_at(message), size - 7, 0);
    assert(wire_format::messages_spec(table, bytes, size) == Decoding::stop(Ok(size as usize)));
    wire_format::lemma_resumes(table, bytes, rest);
    if entries.result is Ok {
        let alone = wire_format::messages_spec(table, bytes, 0);
        assert(alone.events =~= entries.events);
        assert(bytes.skip(size) + rest =~= rest);
        assert(parser.decoding(bytes + rest) =~= then_reads(
            entries.events,
            size,
            parser.decoding(rest),
        ));
    }
}

// ----------------------------------------------------------------------- numbers

/// Whether `text` is a decimal of at most eighteen digits before the dot, worth
/// `n` hundred-millionths, which an `i64` holds.
pub open spec fn sized(text: Seq<u8>, n: int) -> bool {
    &&& n <= i64::MAX
    &&& exists|whole: Seq<u8>, frac: Seq<u8>|
        #![trigger decimal(text, whole, frac)]
        decimal(text, whole, frac) && whole.len() <= 18 && n == written(whole) * 100_000_000
            + written(frac) * power((8 - frac.len()) as nat)
}

#[verifier::rlimit(30)]
proof fn lemma_sized(value: Seq<u8>, n: int)
    ensures
        sized(value, n) ==> wire_format::decimal_spec(value) == Some(n as i64) && 0 <= n
            <= i64::MAX,
        wire_format::decimal_spec(value) matches Some(m) ==> sized(value, m as int),
{
    if sized(value, n) {
        let (whole, frac) = choose|whole: Seq<u8>, frac: Seq<u8>|
            #![trigger decimal(value, whole, frac)]
            decimal(value, whole, frac) && whole.len() <= 18 && n == written(whole) * 100_000_000
                + written(frac) * power((8 - frac.len()) as nat);
        text::lemma_decimal_parts(value, whole, frac);
        text::lemma_worth(value, n);
        assert(text::worth(value, n));
    }
    if let Some(m) = wire_format::decimal_spec(value) {
        text::lemma_worth(value, m as int);
        assert(text::worth(value, m as int));
        let (whole, frac) = choose|whole: Seq<u8>, frac: Seq<u8>|
            #![trigger decimal(value, whole, frac)]
            decimal(value, whole, frac) && m == written(whole) * 100_000_000 + written(frac)
                * power((8 - frac.len()) as nat);
        text::lemma_decimal_parts(value, whole, frac);
        assert(decimal(value, whole, frac));
    }
}

// ----------------------------------------------------------------------- entries

/// Whether `opens` lists the fields 269, in order.
pub open spec fn are_opens(fields: Seq<Field>, opens: Seq<int>) -> bool {
    &&& forall|j: int|
        #![trigger opens[j]]
        0 <= j < opens.len() ==> 0 <= opens[j] < fields.len() && number(fields[opens[j]]) == 269
    &&& forall|i: int, j: int|
        #![trigger opens[i], opens[j]]
        0 <= i < j < opens.len() ==> opens[i] < opens[j]
    &&& forall|i: int|
        #![trigger fields[i]]
        0 <= i < fields.len() && number(fields[i]) == 269 ==> opens.contains(i)
}

/// Where the fields of the entry that the `j`th 269 opens begin: those before
/// the first 269 belong to the first entry.
pub open spec fn begins(opens: Seq<int>, j: int) -> int {
    if j <= 0 {
        0
    } else {
        opens[j]
    }
}

/// Where they end: at the next 269, or with the message.
pub open spec fn ends(fields: Seq<Field>, opens: Seq<int>, j: int) -> int {
    if j + 1 < opens.len() {
        opens[j + 1]
    } else {
        fields.len() as int
    }
}

/// Whether `n` is what the last field `tag` from `lo` on and before `hi` says;
/// nothing said is zero.
pub open spec fn says(fields: Seq<Field>, tag: nat, lo: int, hi: int, n: int) -> bool {
    let i = last_of(fields, tag, lo, hi);
    if i < lo {
        n == 0
    } else {
        sized(fields[i].value, n)
    }
}

/// Whether the last 55 before `hi` names the symbol `index`.
pub open spec fn is_about(table: Seq<&[u8]>, fields: Seq<Field>, hi: int, index: u16) -> bool {
    let i = last_of(fields, 55, 0, hi);
    i >= 0 && exists|at: int|
        #![trigger first_at(table, fields[i].value, at)]
        first_at(table, fields[i].value, at) && index == at as u16
}

/// What the type of an entry says of its side and kind: 0 is a bid, 1 an ask, 2
/// a trade.
pub open spec fn is_of_type(value: Seq<u8>, side: Side, kind: Kind) -> bool {
    ||| value == seq![0x30u8] && side == Side::Bid && kind == Kind::Level
    ||| value == seq![0x31u8] && side == Side::Ask && kind == Kind::Level
    ||| value == seq![0x32u8] && side == Side::Bid && kind == Kind::Trade
}

/// Whether `event` is what the entry of the `j`th 269 says: its type, the last
/// price and the last size before the next 269, and the last symbol named
/// before it.
pub open spec fn is_entry(
    table: Seq<&[u8]>,
    fields: Seq<Field>,
    opens: Seq<int>,
    j: int,
    event: Event,
) -> bool {
    let lo = begins(opens, j);
    let hi = ends(fields, opens, j);
    &&& is_of_type(fields[opens[j]].value, event.side, event.kind)
    &&& says(fields, 270, lo, hi, event.price as int)
    &&& says(fields, 271, lo, hi, event.qty as int)
    &&& is_about(table, fields, hi, event.symbol)
    &&& event.order_id == 0
    &&& event.aux == 0
}

/// Whether the field at `i` can be read: a listed symbol, a known type with a
/// symbol named for the entry before it, a number.
pub open spec fn readable(table: Seq<&[u8]>, fields: Seq<Field>, opens: Seq<int>, i: int) -> bool {
    let field = fields[i];
    &&& number(field) == 55 ==> exists|at: int| #[trigger] first_at(table, field.value, at)
    &&& number(field) == 269 ==> {
        &&& field.value == seq![0x30u8] || field.value == seq![0x31u8] || field.value
            == seq![0x32u8]
        &&& opens[0] < i ==> last_of(fields, 55, 0, i) >= 0
    }
    &&& number(field) == 270 || number(field) == 271 ==> exists|n: int|
        #[trigger] sized(field.value, n)
}

/// Whether the message is market data: its last 35 is `W` or `X`.
pub open spec fn is_market_data(fields: Seq<Field>) -> bool {
    let i = last_of(fields, 35, 0, fields.len() as int);
    i >= 0 && (fields[i].value == seq![0x57u8] || fields[i].value == seq![0x58u8])
}

// ------------------------------------------------------------------- the reading

/// Where the field at `k` stands.
spec fn place(first: int, fields: Seq<Field>, k: int) -> int {
    (first + joined(fields.take(k)).len()) as int
}

/// `m` of the 269s stand before the field at `k`.
spec fn counted(opens: Seq<int>, k: int, m: int) -> bool {
    &&& 0 <= m <= opens.len()
    &&& m > 0 ==> opens[m - 1] < k
    &&& m < opens.len() ==> opens[m] >= k
}

/// What the fields before the one at `k` have said.
spec fn has_heard(
    table: Seq<&[u8]>,
    fields: Seq<Field>,
    opens: Seq<int>,
    k: int,
    m: int,
    body: Body,
) -> bool {
    let lo = begins(opens, m - 1);
    &&& body.market || !body.other
    &&& body.open == (m > 0)
    &&& match body.symbol {
        Some(symbol) => is_about(table, fields, k, symbol),
        None => last_of(fields, 55, 0, k) < 0,
    }
    &&& m > 0 ==> is_of_type(fields[opens[m - 1]].value, body.entry.side, body.entry.kind)
    &&& says(fields, 270, lo, k, body.entry.price as int)
    &&& says(fields, 271, lo, k, body.entry.qty as int)
    &&& body.entry.order_id == 0
    &&& body.entry.aux == 0
}

/// Entries that are complete once `m` of them have been opened.
spec fn complete(m: int) -> int {
    if m <= 1 {
        0
    } else {
        m - 1
    }
}

/// One field taken in.
#[verifier::rlimit(60)]
#[verifier::spinoff_prover]
proof fn lemma_field_taken(
    table: Seq<&[u8]>,
    fields: Seq<Field>,
    opens: Seq<int>,
    k: int,
    m: int,
    body: Body,
)
    requires
        0 <= k < fields.len(),
        are_opens(fields, opens),
        counted(opens, k, m),
        has_heard(table, fields, opens, k, m, body),
        readable(table, fields, opens, k),
        body.market || number(fields[k]) != 35,
    ensures
        ({
            let taken = wire_format::field_spec(
                feed::names(table),
                body,
                number(fields[k]),
                fields[k].value,
                0,
            );
            let n = if number(fields[k]) == 269 {
                m + 1
            } else {
                m
            };
            &&& counted(opens, k + 1, n)
            &&& taken.result is Ok
            &&& has_heard(table, fields, opens, k + 1, n, taken.result->Ok_0)
            &&& taken.result->Ok_0.market == body.market
            &&& !body.market ==> taken.events.len() == 0
            &&& body.market ==> taken.events.len() == complete(n) - complete(m)
            &&& taken.events.len() > 0 ==> is_entry(
                table,
                fields,
                opens,
                complete(m),
                taken.events[0],
            )
        }),
{
    let field = fields[k];
    let tag = number(field);
    let value = field.value;
    let taken = wire_format::field_spec(feed::names(table), body, tag, value, 0);
    let lo = begins(opens, m - 1);
    assert(lo <= k);
    if tag == 269 {
        assert(opens.contains(k));
        let j = choose|j: int| 0 <= j < opens.len() && opens[j] == k;
        assert(j == m) by {
            if j < m {
                assert(opens[j] <= opens[m - 1]);
            }
            if j > m {
                assert(opens[m] < opens[j]);
            }
        }
        if m + 1 < opens.len() {
            assert(opens[m] < opens[m + 1]);
        }
        if m > 0 {
            assert(opens[0] <= opens[m - 1]);
            assert(body.symbol is Some);
            if body.market {
                assert(is_entry(table, fields, opens, m - 1, taken.events[0]));
            }
        }
        assert(wire_format::entry_type(value) is Some);
        let said = taken.result->Ok_0;
        assert(is_of_type(value, said.entry.side, said.entry.kind));
        if m > 0 {
            assert(last_of(fields, 270, k, k + 1) == last_of(fields, 270, k, k));
            assert(last_of(fields, 271, k, k + 1) == last_of(fields, 271, k, k));
        }
        assert(last_of(fields, 55, 0, k + 1) == last_of(fields, 55, 0, k));
        assert(said.symbol == body.symbol);
        assert(begins(opens, m) == if m == 0 {
            0
        } else {
            k
        });
        if m == 0 {
            assert(last_of(fields, 270, 0, k + 1) == last_of(fields, 270, 0, k));
            assert(last_of(fields, 271, 0, k + 1) == last_of(fields, 271, 0, k));
        }
        assert(says(fields, 270, begins(opens, m), k + 1, said.entry.price as int));
        assert(says(fields, 271, begins(opens, m), k + 1, said.entry.qty as int));
        assert(has_heard(table, fields, opens, k + 1, m + 1, said));
    } else {
        if m < opens.len() && opens[m] == k {
            assert(number(fields[opens[m]]) == 269);
        }
        if tag == 55 {
            let at = choose|at: int| #[trigger] first_at(table, value, at);
            text::lemma_found_first(table, value, at);
            let i = last_of(fields, 55, 0, k + 1);
            assert(i == k);
            assert(first_at(table, fields[i].value, at));
            assert(is_about(table, fields, k + 1, at as u16));
        } else if tag == 270 || tag == 271 {
            let n = choose|n: int| #[trigger] sized(value, n);
            lemma_sized(value, n);
        }
        assert(taken.result is Ok);
        let said = taken.result->Ok_0;
        if tag != 55 {
            assert(last_of(fields, 55, 0, k + 1) == last_of(fields, 55, 0, k));
        }
        assert(says(fields, 270, lo, k + 1, said.entry.price as int));
        assert(says(fields, 271, lo, k + 1, said.entry.qty as int));
        assert(has_heard(table, fields, opens, k + 1, m, said));
    }
}

/// The fields from `k` up to `stop` taken in.
#[verifier::rlimit(60)]
#[verifier::spinoff_prover]
proof fn lemma_fields_taken(
    table: Seq<&[u8]>,
    bytes: Seq<u8>,
    first: int,
    fields: Seq<Field>,
    opens: Seq<int>,
    k: int,
    stop: int,
    m: int,
    body: Body,
    end: int,
) -> (out: (Seq<Event>, Body, int))
    requires
        end >= first + joined(fields).len(),
        digits_of::stands(bytes, first, joined(fields)),
        all_proper(fields),
        are_opens(fields, opens),
        0 <= k <= stop <= fields.len(),
        counted(opens, k, m),
        has_heard(table, fields, opens, k, m, body),
        forall|i: int|
            #![trigger fields[i]]
            k <= i < stop ==> readable(table, fields, opens, i) && (body.market || number(
                fields[i],
            ) != 35),
    ensures
        ({
            let names = feed::names(table);
            let rest = wire_format::body_spec(
                names,
                bytes,
                place(first, fields, stop),
                end,
                0,
                out.1,
            );
            &&& wire_format::body_spec(names, bytes, place(first, fields, k), end, 0, body) == (
            Entries { events: out.0 + rest.events, result: rest.result })
            &&& counted(opens, stop, out.2)
            &&& has_heard(table, fields, opens, stop, out.2, out.1)
            &&& out.1.market == body.market
            &&& !body.market ==> out.0.len() == 0
            &&& body.market ==> out.0.len() == complete(out.2) - complete(m)
            &&& forall|t: int|
                #![trigger out.0[t]]
                0 <= t < out.0.len() ==> is_entry(table, fields, opens, complete(m) + t, out.0[t])
        }),
    decreases stop - k,
{
    let names = feed::names(table);
    let at = place(first, fields, k);
    let whole = wire_format::body_spec(names, bytes, at, end, 0, body);
    if k == stop {
        assert(whole =~= (Entries {
            events: Seq::<Event>::empty() + whole.events,
            result: whole.result,
        }));
        (Seq::empty(), body, m)
    } else {
        let field = fields[k];
        lemma_field_stands(bytes, first, fields, k);
        assert(readable(table, fields, opens, k));
        lemma_field_is_read(bytes, at, field);
        lemma_place_before(fields, k);
        let next = place(first, fields, k + 1);
        assert(next == at + sent(field).len());
        lemma_field_taken(table, fields, opens, k, m, body);
        let taken = wire_format::field_spec(names, body, number(field), field.value, 0);
        let said = taken.result->Ok_0;
        let n = if number(field) == 269 {
            m + 1
        } else {
            m
        };
        let more = lemma_fields_taken(
            table,
            bytes,
            first,
            fields,
            opens,
            k + 1,
            stop,
            n,
            said,
            end,
        );
        let rest = wire_format::body_spec(
            names,
            bytes,
            place(first, fields, stop),
            end,
            0,
            more.1,
        );
        let events = taken.events + more.0;
        assert(taken.events + (more.0 + rest.events) =~= events + rest.events);
        assert forall|t: int|
            #![trigger events[t]]
            0 <= t < events.len() implies is_entry(
            table,
            fields,
            opens,
            complete(m) + t,
            events[t],
        ) by {
            if t < taken.events.len() {
                assert(events[t] == taken.events[t]);
            } else {
                assert(events[t] == more.0[t - taken.events.len()]);
            }
        }
        (events, more.1, more.2)
    }
}

/// A field starts before the fields end.
proof fn lemma_place_before(fields: Seq<Field>, k: int)
    requires
        0 <= k < fields.len(),
    ensures
        joined(fields.take(k)).len() + sent(fields[k]).len() <= joined(fields).len(),
    decreases fields.len(),
{
    let front = fields.drop_last();
    if k == fields.len() - 1 {
        assert(fields.take(k) =~= front);
    } else {
        assert(front.take(k) =~= fields.take(k));
        lemma_place_before(front, k);
    }
}

/// Whether the last 35 before the field at `k` is `W` or `X`.
spec fn market_so_far(fields: Seq<Field>, k: int) -> bool {
    let i = last_of(fields, 35, 0, k);
    i >= 0 && (fields[i].value == seq![0x57u8] || fields[i].value == seq![0x58u8])
}

/// The last 35 decides.
#[verifier::rlimit(30)]
proof fn lemma_market(bytes: Seq<u8>, first: int, fields: Seq<Field>, k: int, end: int)
    requires
        digits_of::stands(bytes, first, joined(fields)),
        all_proper(fields),
        0 <= k <= fields.len(),
        first + joined(fields).len() <= end <= bytes.len(),
        first + joined(fields).len() < end ==> !(0x30 <= bytes[(first + joined(
            fields,
        ).len()) as int] <= 0x39),
    ensures
        wire_format::market_spec(
            bytes,
            place(first, fields, k),
            end,
            market_so_far(fields, k),
        ) == is_market_data(fields),
    decreases fields.len() - k,
{
    let at = place(first, fields, k);
    if k == fields.len() {
        assert(fields.take(k) =~= fields);
        if at < end {
            assert(digits_of::skip_digits(bytes, at) == at);
        }
    } else {
        let field = fields[k];
        lemma_field_stands(bytes, first, fields, k);
        lemma_place_before(fields, k);
        lemma_field_is_read(bytes, at, field);
        let value = field.value;
        assert(wire_format::is_market(value) <==> value == seq![0x57u8] || value == seq![0x58u8])
            by {
            if value.len() == 1 {
                assert(value =~= seq![value[0]]);
            }
        }
        lemma_market(bytes, first, fields, k + 1, end);
    }
}

proof fn lemma_market_of(message: Message)
    requires
        headed(message),
    ensures
        wire_format::market_spec(
            whole(message),
            fields_at(message),
            whole(message).len() - 7,
            false,
        ) == is_market_data(message.fields),
{
    lemma_parts_stand(message);
    assert(message.fields.take(0) =~= Seq::empty());
    assert(trailer(message).len() == 7);
    lemma_market(
        whole(message),
        fields_at(message),
        message.fields,
        0,
        whole(message).len() - 7,
    );
}

proof fn lemma_nothing_heard(table: Seq<&[u8]>, fields: Seq<Field>, opens: Seq<int>)
    requires
        are_opens(fields, opens),
    ensures
        counted(opens, 0, 0),
        has_heard(table, fields, opens, 0, 0, wire_format::empty_body(true)),
        has_heard(table, fields, opens, 0, 0, wire_format::empty_body(false)),
{
}

/// A message read up to the field at `stop`; one that is not market data only up
/// to its type.
#[verifier::rlimit(60)]
#[verifier::spinoff_prover]
proof fn lemma_read_up_to(
    table: Seq<&[u8]>,
    message: Message,
    opens: Seq<int>,
    stop: int,
) -> (out: (Seq<Event>, Body, int))
    requires
        headed(message),
        are_opens(message.fields, opens),
        0 <= stop <= message.fields.len(),
        forall|i: int|
            #![trigger message.fields[i]]
            0 <= i < stop ==> readable(table, message.fields, opens, i) && (is_market_data(
                message.fields,
            ) || number(message.fields[i]) != 35),
    ensures
        ({
            let bytes = whole(message);
            let names = feed::names(table);
            let first = fields_at(message);
            let end = (bytes.len() - 7) as int;
            let rest = wire_format::body_spec(
                names,
                bytes,
                place(first, message.fields, stop),
                end,
                0,
                out.1,
            );
            &&& wire_format::message_spec(names, bytes, first, end, 0) == (Entries {
                events: out.0 + rest.events,
                result: rest.result,
            })
            &&& counted(opens, stop, out.2)
            &&& has_heard(table, message.fields, opens, stop, out.2, out.1)
            &&& out.1.market == is_market_data(message.fields)
            &&& !out.1.market ==> out.0.len() == 0
            &&& out.1.market ==> out.0.len() == complete(out.2)
            &&& forall|t: int|
                #![trigger out.0[t]]
                0 <= t < out.0.len() ==> is_entry(table, message.fields, opens, t, out.0[t])
        }),
{
    let fields = message.fields;
    let first = fields_at(message);
    lemma_market_of(message);
    lemma_parts_stand(message);
    lemma_nothing_heard(table, fields, opens);
    assert(trailer(message).len() == 7);
    assert(fields.take(0) =~= Seq::empty());
    let out = lemma_fields_taken(
        table,
        whole(message),
        first,
        fields,
        opens,
        0,
        stop,
        0,
        wire_format::empty_body(is_market_data(fields)),
        whole(message).len() - 7,
    );
    assert forall|t: int| #![trigger out.0[t]] 0 <= t < out.0.len() implies is_entry(
        table,
        fields,
        opens,
        t,
        out.0[t],
    ) by {
        assert(complete(0) + t == t);
    }
    out
}

/// The end of a body completes the entry that is open.
proof fn lemma_last_entry(
    table: Seq<&[u8]>,
    bytes: Seq<u8>,
    end: int,
    fields: Seq<Field>,
    opens: Seq<int>,
    m: int,
    said: Body,
)
    requires
        0 <= end,
        are_opens(fields, opens),
        counted(opens, fields.len() as int, m),
        has_heard(table, fields, opens, fields.len() as int, m, said),
        said.market,
        opens.len() > 0 ==> last_of(fields, 55, 0, fields.len() as int) >= 0,
    ensures
        m == opens.len(),
        ({
            let last = wire_format::body_spec(feed::names(table), bytes, end, end, 0, said);
            &&& last.result is Ok
            &&& last.events.len() == opens.len() - complete(m)
            &&& m > 0 ==> is_entry(table, fields, opens, m - 1, last.events[0])
        }),
{
    if m < opens.len() {
        assert(opens[m] < fields.len());
    }
}

/// A snapshot or a refresh whose fields can all be read gives one event for each
/// 269 in it, in order: the price is the last 270 between that 269 and the next,
/// the size the last 271, in hundred-millionths; the symbol is the last 55
/// before the next 269. Fields may come in any order and others may stand among
/// them. Then what stands behind the message is read.
#[verifier::rlimit(60)]
#[verifier::spinoff_prover]
pub proof fn lemma_market_data_is_read(
    parser: Fix<'_>,
    message: Message,
    opens: Seq<int>,
    rest: Seq<u8>,
) -> (events: Seq<Event>)
    requires
        headed(message),
        message.stray.len() == 0,
        vouched(message),
        (whole(message) + rest).len() <= usize::MAX,
        is_market_data(message.fields),
        are_opens(message.fields, opens),
        forall|i: int|
            #![trigger message.fields[i]]
            0 <= i < message.fields.len() ==> readable(
                parser.symbols@,
                message.fields,
                opens,
                i,
            ),
        opens.len() > 0 ==> last_of(message.fields, 55, 0, message.fields.len() as int) >= 0,
    ensures
        parser.decoding(whole(message) + rest) == then_reads(
            events,
            whole(message).len() as int,
            parser.decoding(rest),
        ),
        events.len() == opens.len(),
        forall|j: int|
            #![trigger events[j]]
            0 <= j < opens.len() ==> is_entry(
                parser.symbols@,
                message.fields,
                opens,
                j,
                events[j],
            ),
{
    let table = parser.symbols@;
    let fields = message.fields;
    let n = fields.len() as int;
    lemma_first(parser, message, rest);
    let (events, said, m) = lemma_read_up_to(table, message, opens, n);
    assert(fields.take(n) =~= fields);
    let end = whole(message).len() - 7;
    lemma_last_entry(table, whole(message), end, fields, opens, m, said);
    let last = wire_format::body_spec(feed::names(table), whole(message), end, end, 0, said);
    let all = events + last.events;
    assert forall|j: int| #![trigger all[j]] 0 <= j < opens.len() implies is_entry(
        table,
        fields,
        opens,
        j,
        all[j],
    ) by {
        if j < events.len() {
            assert(all[j] == events[j]);
        } else {
            assert(all[j] == last.events[j - events.len()]);
        }
    }
    all
}

/// Bytes behind the fields of a snapshot or a refresh that are no field are
/// malformed. The entries that were complete by then stand, but not the last.
#[verifier::rlimit(60)]
#[verifier::spinoff_prover]
pub proof fn lemma_stray_bytes_are_refused(
    parser: Fix<'_>,
    message: Message,
    opens: Seq<int>,
    rest: Seq<u8>,
) -> (events: Seq<Event>)
    requires
        headed(message),
        message.stray.len() > 0,
        vouched(message),
        (whole(message) + rest).len() <= usize::MAX,
        is_market_data(message.fields),
        are_opens(message.fields, opens),
        forall|i: int|
            #![trigger message.fields[i]]
            0 <= i < message.fields.len() ==> readable(
                parser.symbols@,
                message.fields,
                opens,
                i,
            ),
    ensures
        parser.decoding(whole(message) + rest) == (Decoding {
            events,
            outcome: Err(FeedError::Malformed { offset: 0 }),
        }),
        events.len() == opens.len() - 1 || opens.len() == 0 && events.len() == 0,
        forall|j: int|
            #![trigger events[j]]
            0 <= j < events.len() ==> is_entry(
                parser.symbols@,
                message.fields,
                opens,
                j,
                events[j],
            ),
{
    let table = parser.symbols@;
    let fields = message.fields;
    let bytes = whole(message);
    let n = fields.len() as int;
    lemma_first(parser, message, rest);
    lemma_parts_stand(message);
    let (events, said, m) = lemma_read_up_to(table, message, opens, n);
    if m < opens.len() {
        assert(opens[m] < n);
    }
    assert(fields.take(n) =~= fields);
    let at = place(fields_at(message), fields, n);
    assert(digits_of::skip_digits(bytes, at) == at);
    assert(events + Seq::<Event>::empty() =~= events);
    events
}

/// A field that cannot be read.
#[verifier::rlimit(60)]
#[verifier::spinoff_prover]
proof fn lemma_field_not_taken(
    table: Seq<&[u8]>,
    fields: Seq<Field>,
    opens: Seq<int>,
    k: int,
    m: int,
    said: Body,
)
    requires
        0 <= k < fields.len(),
        are_opens(fields, opens),
        counted(opens, k, m),
        has_heard(table, fields, opens, k, m, said),
        !readable(table, fields, opens, k),
    ensures
        ({
            let taken = wire_format::field_spec(
                feed::names(table),
                said,
                number(fields[k]),
                fields[k].value,
                0,
            );
            let closes = said.market && number(fields[k]) == 269 && m > 0 && last_of(
                fields,
                55,
                0,
                k,
            ) >= 0;
            &&& taken.result == (if number(fields[k]) == 55 {
                Err::<Body, FeedError>(FeedError::UnknownSymbol { offset: 0 })
            } else {
                Err(FeedError::Malformed { offset: 0 })
            })
            &&& taken.events.len() == (if closes {
                1int
            } else {
                0
            })
            &&& closes ==> is_entry(table, fields, opens, m - 1, taken.events[0])
        }),
{
    let value = fields[k].value;
    let tag = number(fields[k]);
    lemma_opened(fields, opens, k, m);
    if tag == 55 {
        assert(forall|i: int| 0 <= i < table.len() ==> #[trigger] table[i]@ != value) by {
            if exists|i: int| 0 <= i < table.len() && #[trigger] table[i]@ == value {
                lemma_some_first(table, value);
            }
        }
        text::lemma_found_first(table, value, 0);
    } else if tag == 270 || tag == 271 {
        if let Some(n) = wire_format::decimal_spec(value) {
            lemma_sized(value, n as int);
        }
    } else if tag == 269 {
        if value.len() == 1 {
            assert(value =~= seq![value[0]]);
        }
        if m > 0 {
            assert(opens[0] <= opens[m - 1]);
        } else {
            assert(opens[0] == k);
        }
    }
}

/// A message of market data read up to the field at `k`, which cannot be.
#[verifier::rlimit(60)]
#[verifier::spinoff_prover]
proof fn lemma_read_and_stopped(
    table: Seq<&[u8]>,
    message: Message,
    opens: Seq<int>,
    k: int,
) -> (out: (Seq<Event>, int))
    requires
        headed(message),
        is_market_data(message.fields),
        are_opens(message.fields, opens),
        0 <= k < message.fields.len(),
        forall|i: int|
            #![trigger message.fields[i]]
            0 <= i < k ==> readable(table, message.fields, opens, i),
        !readable(table, message.fields, opens, k),
    ensures
        ({
            let fields = message.fields;
            let closes = number(fields[k]) == 269 && out.1 > 0 && last_of(fields, 55, 0, k) >= 0;
            let read = wire_format::message_spec(
                feed::names(table),
                whole(message),
                fields_at(message),
                whole(message).len() - 7,
                0,
            );
            &&& read.events == out.0
            &&& read.result == (if number(fields[k]) == 55 {
                Err::<(), FeedError>(FeedError::UnknownSymbol { offset: 0 })
            } else {
                Err(FeedError::Malformed { offset: 0 })
            })
            &&& counted(opens, k, out.1)
            &&& out.0.len() == complete(out.1) + (if closes {
                1int
            } else {
                0
            })
            &&& forall|j: int|
                #![trigger out.0[j]]
                0 <= j < out.0.len() ==> is_entry(table, fields, opens, j, out.0[j])
        }),
{
    let fields = message.fields;
    let bytes = whole(message);
    let first = fields_at(message);
    let (events, said, m) = lemma_read_up_to(table, message, opens, k);
    let field = fields[k];
    let at = place(first, fields, k);
    lemma_parts_stand(message);
    lemma_field_stands(bytes, first, fields, k);
    lemma_place_before(fields, k);
    lemma_field_is_read(bytes, at, field);
    lemma_field_not_taken(table, fields, opens, k, m, said);
    let names = feed::names(table);
    let taken = wire_format::field_spec(names, said, number(field), field.value, 0);
    let all = events + taken.events;
    assert forall|j: int| #![trigger all[j]] 0 <= j < all.len() implies is_entry(
        table,
        fields,
        opens,
        j,
        all[j],
    ) by {
        if j < events.len() {
            assert(all[j] == events[j]);
        } else {
            assert(all[j] == taken.events[j - events.len()]);
        }
    }
    (all, m)
}

/// A snapshot or a refresh stops being read at the first field that cannot be:
/// a symbol that is not listed is unknown, anything else is malformed. The
/// entries that were complete by then stand.
#[verifier::rlimit(60)]
#[verifier::spinoff_prover]
pub proof fn lemma_unreadable_field_stops(
    parser: Fix<'_>,
    message: Message,
    opens: Seq<int>,
    k: int,
    rest: Seq<u8>,
) -> (events: Seq<Event>)
    requires
        headed(message),
        vouched(message),
        (whole(message) + rest).len() <= usize::MAX,
        is_market_data(message.fields),
        are_opens(message.fields, opens),
        0 <= k < message.fields.len(),
        forall|i: int|
            #![trigger message.fields[i]]
            0 <= i < k ==> readable(parser.symbols@, message.fields, opens, i),
        !readable(parser.symbols@, message.fields, opens, k),
    ensures
        parser.decoding(whole(message) + rest) == (Decoding {
            events,
            outcome: if number(message.fields[k]) == 55 {
                Err(FeedError::UnknownSymbol { offset: 0 })
            } else {
                Err(FeedError::Malformed { offset: 0 })
            },
        }),
        forall|j: int|
            #![trigger events[j]]
            0 <= j < events.len() ==> is_entry(
                parser.symbols@,
                message.fields,
                opens,
                j,
                events[j],
            ),
        forall|j: int|
            #![trigger opens[j]]
            0 <= j < opens.len() ==> (j < events.len() <==> ends(message.fields, opens, j) < k || (
            j + 1 < opens.len() && opens[j + 1] == k && last_of(message.fields, 55, 0, k) >= 0)),
{
    let table = parser.symbols@;
    let fields = message.fields;
    lemma_first(parser, message, rest);
    let (events, m) = lemma_read_and_stopped(table, message, opens, k);
    lemma_completed(fields, opens, k, m, events.len() as int);
    events
}

/// Which 269 stands at `k`, if any.
proof fn lemma_opened(fields: Seq<Field>, opens: Seq<int>, k: int, m: int)
    requires
        0 <= k < fields.len(),
        are_opens(fields, opens),
        counted(opens, k, m),
    ensures
        number(fields[k]) == 269 <==> m < opens.len() && opens[m] == k,
{
    if number(fields[k]) == 269 {
        assert(opens.contains(k));
        let j = choose|j: int| 0 <= j < opens.len() && opens[j] == k;
        if j < m {
            assert(opens[j] <= opens[m - 1]);
        }
        if j > m {
            assert(opens[m] < opens[j]);
        }
    }
}

proof fn lemma_ended(fields: Seq<Field>, opens: Seq<int>, k: int, m: int, j: int)
    requires
        0 <= k < fields.len(),
        0 <= j < opens.len(),
        are_opens(fields, opens),
        counted(opens, k, m),
    ensures
        ends(fields, opens, j) < k <==> j < complete(m),
        j + 1 < opens.len() && opens[j + 1] == k <==> number(fields[k]) == 269 && j == m - 1,
{
    lemma_opened(fields, opens, k, m);
    if j + 1 < opens.len() {
        if j + 1 < m {
            assert(opens[j + 1] <= opens[m - 1]);
        } else {
            assert(opens[m] <= opens[j + 1]);
        }
    }
}

/// The entries that are complete by the field at `k`.
proof fn lemma_completed(fields: Seq<Field>, opens: Seq<int>, k: int, m: int, n: int)
    requires
        0 <= k < fields.len(),
        are_opens(fields, opens),
        counted(opens, k, m),
        n == complete(m) + (if number(fields[k]) == 269 && m > 0 && last_of(fields, 55, 0, k) >= 0 {
            1int
        } else {
            0
        }),
    ensures
        forall|j: int|
            #![trigger opens[j]]
            0 <= j < opens.len() ==> (j < n <==> ends(fields, opens, j) < k || (j + 1 < opens.len()
                && opens[j + 1] == k && last_of(fields, 55, 0, k) >= 0)),
{
    assert forall|j: int| #![trigger opens[j]] 0 <= j < opens.len() implies (j < n <==> ends(
        fields,
        opens,
        j,
    ) < k || (j + 1 < opens.len() && opens[j + 1] == k && last_of(fields, 55, 0, k) >= 0)) by {
        lemma_ended(fields, opens, k, m, j);
    }
}

/// What stands in a table stands somewhere first.
proof fn lemma_some_first(table: Seq<&[u8]>, name: Seq<u8>)
    requires
        exists|i: int| 0 <= i < table.len() && #[trigger] table[i]@ == name,
    ensures
        exists|at: int| #[trigger] first_at(table, name, at),
{
    let known = feed::names(table);
    let i = choose|i: int| 0 <= i < table.len() && #[trigger] table[i]@ == name;
    assert(known[i] == name);
    known.index_of_first_ensures(name);
    let at = known.index_of_first(name)->0;
    assert forall|j: int| 0 <= j < at implies #[trigger] table[j]@ != name by {
        assert(known[j] == table[j]@);
    }
    assert(first_at(table, name, at));
}

/// An entry that is still open at the end of a message that named no symbol is
/// malformed.
#[verifier::rlimit(60)]
#[verifier::spinoff_prover]
pub proof fn lemma_nameless_entry_is_refused(
    parser: Fix<'_>,
    message: Message,
    opens: Seq<int>,
    rest: Seq<u8>,
)
    requires
        headed(message),
        message.stray.len() == 0,
        vouched(message),
        (whole(message) + rest).len() <= usize::MAX,
        is_market_data(message.fields),
        are_opens(message.fields, opens),
        forall|i: int|
            #![trigger message.fields[i]]
            0 <= i < message.fields.len() ==> readable(
                parser.symbols@,
                message.fields,
                opens,
                i,
            ),
        opens.len() > 0,
        last_of(message.fields, 55, 0, message.fields.len() as int) < 0,
    ensures
        parser.decoding(whole(message) + rest) == refused(FeedError::Malformed { offset: 0 }),
{
    let table = parser.symbols@;
    let fields = message.fields;
    let n = fields.len() as int;
    lemma_first(parser, message, rest);
    let (events, said, m) = lemma_read_up_to(table, message, opens, n);
    assert(fields.take(n) =~= fields);
    assert(opens[0] < n);
    if opens.len() > 1 {
        let i = opens[1];
        assert(opens[0] < i);
        assert(readable(table, fields, opens, i));
        lemma_last_of_grows(fields, 55, i, n);
    }
    assert(m == 1);
    assert(events =~= Seq::empty());
}

proof fn lemma_last_of_grows(fields: Seq<Field>, tag: nat, k: int, n: int)
    requires
        0 <= k <= n,
    ensures
        last_of(fields, tag, 0, n) >= last_of(fields, tag, 0, k),
    decreases n - k,
{
    if k < n {
        lemma_last_of_grows(fields, tag, k, n - 1);
        lemma_last_of_below(fields, tag, n - 1);
    }
}

proof fn lemma_last_of_below(fields: Seq<Field>, tag: nat, k: int)
    requires
        0 <= k,
    ensures
        -1 <= last_of(fields, tag, 0, k) < k,
    decreases k,
{
    if k > 0 {
        lemma_last_of_below(fields, tag, k - 1);
    }
}

// ----------------------------------------------------------------- other messages

/// A body that is not market data says nothing.
proof fn lemma_says_nothing(
    names: Seq<Seq<u8>>,
    bytes: Seq<u8>,
    at: int,
    end: int,
    body: Body,
)
    requires
        !body.market,
    ensures
        wire_format::body_spec(names, bytes, at, end, 0, body).events.len() == 0,
    decreases bytes.len() - at,
{
    wire_format::lemma_pair(bytes, at);
    if 0 <= at < end {
        if let Pair::Field { tag, value, next } = wire_format::pair_spec(bytes, at) {
            let taken = wire_format::field_spec(names, body, tag, value, 0);
            if let Ok(said) = taken.result {
                lemma_says_nothing(names, bytes, next, end, said);
            }
        }
    }
}

/// Fields behind a type that is neither `W` nor `X` are passed over.
#[verifier::rlimit(30)]
proof fn lemma_passed_over(
    names: Seq<Seq<u8>>,
    bytes: Seq<u8>,
    first: int,
    fields: Seq<Field>,
    k: int,
    body: Body,
)
    requires
        digits_of::stands(bytes, first, joined(fields)),
        all_proper(fields),
        0 <= k <= fields.len(),
        body.passed_over(),
        forall|i: int|
            #![trigger fields[i]]
            0 <= i < fields.len() && number(fields[i]) == 35 ==> fields[i].value != seq![0x57u8]
                && fields[i].value != seq![0x58u8],
    ensures
        wire_format::body_spec(
            names,
            bytes,
            place(first, fields, k),
            first + joined(fields).len(),
            0,
            body,
        ) == (Entries { events: Seq::empty(), result: Ok(()) }),
    decreases fields.len() - k,
{
    let at = place(first, fields, k);
    if k == fields.len() {
        assert(fields.take(k) =~= fields);
    } else {
        let field = fields[k];
        lemma_field_stands(bytes, first, fields, k);
        lemma_place_before(fields, k);
        lemma_field_is_read(bytes, at, field);
        let value = field.value;
        if value.len() == 1 {
            assert(value =~= seq![value[0]]);
        }
        let said = wire_format::field_spec(names, body, number(field), value, 0).result->Ok_0;
        lemma_passed_over(names, bytes, first, fields, k + 1, said);
        assert(wire_format::field_spec(names, body, number(field), value, 0).events
            =~= Seq::empty());
    }
}

/// Whether no 35 stands before the field at `k`.
pub open spec fn untyped(fields: Seq<Field>, k: int) -> bool {
    forall|i: int| #![trigger fields[i]] 0 <= i < k ==> number(fields[i]) != 35
}

/// What stands before the type of a message that is not market data is read all
/// the same, though it says nothing: a field there that cannot be read stops the
/// reading, as it does in a snapshot.
#[verifier::rlimit(60)]
#[verifier::spinoff_prover]
pub proof fn lemma_fields_before_the_type(
    parser: Fix<'_>,
    message: Message,
    opens: Seq<int>,
    k: int,
    rest: Seq<u8>,
)
    requires
        headed(message),
        vouched(message),
        (whole(message) + rest).len() <= usize::MAX,
        !is_market_data(message.fields),
        are_opens(message.fields, opens),
        0 <= k < message.fields.len(),
        untyped(message.fields, k + 1),
        forall|i: int|
            #![trigger message.fields[i]]
            0 <= i < k ==> readable(parser.symbols@, message.fields, opens, i),
        !readable(parser.symbols@, message.fields, opens, k),
    ensures
        parser.decoding(whole(message) + rest) == refused(
            if number(message.fields[k]) == 55 {
                FeedError::UnknownSymbol { offset: 0 }
            } else {
                FeedError::Malformed { offset: 0 }
            },
        ),
{
    let table = parser.symbols@;
    let fields = message.fields;
    let bytes = whole(message);
    let first = fields_at(message);
    lemma_first(parser, message, rest);
    let (events, said, m) = lemma_read_up_to(table, message, opens, k);
    let field = fields[k];
    let at = place(first, fields, k);
    lemma_parts_stand(message);
    lemma_field_stands(bytes, first, fields, k);
    lemma_place_before(fields, k);
    lemma_field_is_read(bytes, at, field);
    lemma_field_not_taken(table, fields, opens, k, m, said);
    assert(events =~= Seq::empty());
    let taken = wire_format::field_spec(
        feed::names(table),
        said,
        number(field),
        field.value,
        0,
    );
    assert(events + taken.events =~= Seq::empty());
}

/// Fields before the type of a message that is not market data, where all of them
/// can be read, say nothing and stop nothing: the rest of it is passed over from
/// its type on, and what stands behind it is read.
#[verifier::rlimit(60)]
#[verifier::spinoff_prover]
pub proof fn lemma_passed_over_from_the_type_on(
    parser: Fix<'_>,
    message: Message,
    opens: Seq<int>,
    t: int,
    rest: Seq<u8>,
)
    requires
        headed(message),
        message.stray.len() == 0,
        vouched(message),
        (whole(message) + rest).len() <= usize::MAX,
        are_opens(message.fields, opens),
        0 <= t < message.fields.len(),
        untyped(message.fields, t),
        number(message.fields[t]) == 35,
        forall|i: int|
            #![trigger message.fields[i]]
            0 <= i < message.fields.len() && number(message.fields[i]) == 35
                ==> message.fields[i].value != seq![0x57u8] && message.fields[i].value
                != seq![0x58u8],
        forall|i: int|
            #![trigger message.fields[i]]
            0 <= i < t ==> readable(parser.symbols@, message.fields, opens, i),
    ensures
        parser.decoding(whole(message) + rest) == then_reads(
            Seq::empty(),
            whole(message).len() as int,
            parser.decoding(rest),
        ),
{
    let table = parser.symbols@;
    let names = feed::names(table);
    let fields = message.fields;
    let bytes = whole(message);
    let first = fields_at(message);
    lemma_first(parser, message, rest);
    lemma_last_of_is(fields, 35, fields.len() as int);
    assert(!is_market_data(fields));
    let (events, said, m) = lemma_read_up_to(table, message, opens, t);
    lemma_parts_stand(message);
    lemma_field_stands(bytes, first, fields, t);
    lemma_place_before(fields, t);
    let at = place(first, fields, t);
    lemma_field_is_read(bytes, at, fields[t]);
    let value = fields[t].value;
    if value.len() == 1 {
        assert(value =~= seq![value[0]]);
    }
    let taken = wire_format::field_spec(names, said, 35, value, 0);
    let told = taken.result->Ok_0;
    assert(told.passed_over());
    lemma_passed_over(names, bytes, first, fields, t + 1, told);
    assert(trailer(message).len() == 7);
    assert(events =~= Seq::empty());
    assert(taken.events + Seq::<Event>::empty() =~= Seq::empty());
    assert(events + (taken.events + Seq::<Event>::empty()) =~= Seq::empty());
}

/// The last field with a tag has that tag.
proof fn lemma_last_of_is(fields: Seq<Field>, tag: nat, k: int)
    requires
        0 <= k <= fields.len(),
    ensures
        ({
            let i = last_of(fields, tag, 0, k);
            i >= 0 ==> i < k && number(fields[i]) == tag
        }),
    decreases k,
{
    if k > 0 {
        lemma_last_of_is(fields, tag, k - 1);
    }
}

/// Whether the type comes first and is the only one, or there are no fields.
pub open spec fn typed_first(fields: Seq<Field>) -> bool {
    fields.len() == 0 || {
        &&& number(fields[0]) == 35
        &&& forall|i: int|
            #![trigger fields[i]]
            0 < i < fields.len() ==> number(fields[i]) != 35
    }
}

#[verifier::rlimit(30)]
proof fn lemma_typed_body(names: Seq<Seq<u8>>, message: Message)
    requires
        headed(message),
        message.stray.len() == 0,
        !is_market_data(message.fields),
        typed_first(message.fields),
    ensures
        wire_format::body_spec(
            names,
            whole(message),
            fields_at(message),
            fields_at(message) + joined(message.fields).len(),
            0,
            wire_format::empty_body(false),
        ).result is Ok,
{
    let bytes = whole(message);
    let fields = message.fields;
    let first = fields_at(message);
    let body = wire_format::empty_body(false);
    if fields.len() > 0 {
        lemma_parts_stand(message);
        assert(fields.take(0) =~= Seq::empty());
        lemma_field_stands(bytes, first, fields, 0);
        lemma_place_before(fields, 0);
        lemma_field_is_read(bytes, first, fields[0]);
        lemma_only_type(fields, fields.len() as int);
        let value = fields[0].value;
        if value.len() == 1 {
            assert(value =~= seq![value[0]]);
        }
        let said = wire_format::field_spec(names, body, 35, value, 0).result->Ok_0;
        assert(said.passed_over());
        lemma_passed_over(names, bytes, first, fields, 1, said);
    }
}

proof fn lemma_other_body(names: Seq<Seq<u8>>, message: Message)
    requires
        headed(message),
        message.stray.len() == 0,
        !is_market_data(message.fields),
    ensures
        ({
            let read = wire_format::message_spec(
                names,
                whole(message),
                fields_at(message),
                whole(message).len() - 7,
                0,
            );
            &&& read.events == Seq::<Event>::empty()
            &&& read.result matches Err(error) ==> error == (FeedError::Malformed { offset: 0 })
                || error == (FeedError::UnknownSymbol { offset: 0 })
            &&& typed_first(message.fields) ==> read.result is Ok
        }),
{
    let bytes = whole(message);
    let first = fields_at(message);
    let body = wire_format::empty_body(false);
    lemma_market_of(message);
    assert(trailer(message).len() == 7);
    let end = first + joined(message.fields).len();
    lemma_says_nothing(names, bytes, first, end, body);
    lemma_errors_are_at_the_start(names, bytes, first, end, body);
    if typed_first(message.fields) {
        lemma_typed_body(names, message);
    }
}

/// A message whose last 35 is neither `W` nor `X` gives no event. Where its type
/// comes first and is the only one, whatever else it says is passed over, and
/// what stands behind it is read.
pub proof fn lemma_other_messages_say_nothing(
    parser: Fix<'_>,
    message: Message,
    rest: Seq<u8>,
)
    requires
        headed(message),
        message.stray.len() == 0,
        vouched(message),
        (whole(message) + rest).len() <= usize::MAX,
        !is_market_data(message.fields),
    ensures
        ({
            let read = parser.decoding(whole(message) + rest);
            let passed = then_reads(
                Seq::empty(),
                whole(message).len() as int,
                parser.decoding(rest),
            );
            &&& read == passed || read == refused(FeedError::Malformed { offset: 0 }) || read
                == refused(FeedError::UnknownSymbol { offset: 0 })
            &&& typed_first(message.fields) ==> read == passed
        }),
{
    lemma_first(parser, message, rest);
    lemma_other_body(feed::names(parser.symbols@), message);
}

proof fn lemma_only_type(fields: Seq<Field>, k: int)
    requires
        0 < k <= fields.len(),
        number(fields[0]) == 35,
        forall|i: int| #![trigger fields[i]] 0 < i < fields.len() ==> number(fields[i]) != 35,
    ensures
        last_of(fields, 35, 0, k) == 0,
    decreases k,
{
    if k > 1 {
        lemma_only_type(fields, k - 1);
        assert(number(fields[k - 1]) != 35);
    }
}

proof fn lemma_errors_are_at_the_start(
    names: Seq<Seq<u8>>,
    bytes: Seq<u8>,
    at: int,
    end: int,
    body: Body,
)
    ensures
        wire_format::body_spec(names, bytes, at, end, 0, body).result matches Err(error) ==> error
            == (FeedError::Malformed { offset: 0 }) || error == (FeedError::UnknownSymbol {
            offset: 0,
        }),
    decreases bytes.len() - at,
{
    wire_format::lemma_pair(bytes, at);
    if 0 <= at < end {
        if let Pair::Field { tag, value, next } = wire_format::pair_spec(bytes, at) {
            if let Ok(said) = wire_format::field_spec(names, body, tag, value, 0).result {
                lemma_errors_are_at_the_start(names, bytes, next, end, said);
            }
        }
    }
}

// ----------------------------------------------------------------------- framing

/// A stream whose first field is not 8, or whose second is not 9 with one to
/// eighteen digits, is malformed.
#[verifier::rlimit(30)]
pub proof fn lemma_headless_is_refused(
    parser: Fix<'_>,
    version: Field,
    length: Field,
    rest: Seq<u8>,
)
    requires
        proper(version),
        proper(length),
        (sent(version) + sent(length) + rest).len() <= usize::MAX,
        number(version) != 8 || number(length) != 9 || length.value.len() == 0
            || length.value.len() > 18 || !digits(length.value),
    ensures
        parser.decoding(sent(version) + sent(length) + rest) == refused(
            FeedError::Malformed { offset: 0 },
        ),
{
    let bytes = sent(version) + sent(length) + rest;
    let second = sent(version).len() as int;
    assert(bytes.subrange(0, second) =~= sent(version));
    assert(bytes.subrange(second, second + sent(length).len()) =~= sent(length));
    reveal(wire_format::frame_spec);
    lemma_field_is_read(bytes, 0, version);
    lemma_field_is_read(bytes, second, length);
    if !digits(length.value) {
        let i = choose|i: int|
            0 <= i < length.value.len() && !(0x30 <= #[trigger] length.value[i] <= 0x39);
        assert(!digits_of::is_digit(length.value[i]));
    }
}

/// A stream that does not start with one to nine digits and an equals sign is
/// malformed.
#[verifier::rlimit(30)]
pub proof fn lemma_no_tag_is_refused(parser: Fix<'_>, tag: Seq<u8>, byte: u8, rest: Seq<u8>)
    requires
        digits(tag),
        tag.len() <= 9,
        (tag + seq![byte] + rest).len() <= usize::MAX,
        byte != 0x3d || tag.len() == 0,
        tag.len() == 9 || !(0x30 <= byte <= 0x39),
    ensures
        parser.decoding(tag + seq![byte] + rest) == refused(FeedError::Malformed { offset: 0 }),
{
    let bytes = tag + seq![byte] + rest;
    let n = tag.len() as int;
    assert forall|i: int| 0 <= i < n implies digits_of::is_digit(#[trigger] bytes[i]) by {
        assert(bytes[i] == tag[i]);
    }
    digits_of::lemma_skip_digits(bytes, 0);
    assert(bytes[n] == byte);
    if digits_of::skip_digits(bytes, 0) < n {
        assert(digits_of::is_digit(bytes[digits_of::skip_digits(bytes, 0)]));
    }
    if n < 9 && digits_of::skip_digits(bytes, 0) > n {
        assert(digits_of::is_digit(bytes[n]));
    }
    reveal(wire_format::frame_spec);
}

/// A field that is cut short is waited for.
#[verifier::rlimit(30)]
proof fn lemma_field_cut(bytes: Seq<u8>, at: int, field: Field)
    requires
        proper(field),
        0 <= at <= bytes.len(),
        bytes.len() - at < sent(field).len(),
        bytes.skip(at) == sent(field).take(bytes.len() - at),
    ensures
        wire_format::pair_spec(bytes, at) is Short,
{
    let whole = sent(field);
    let have = bytes.len() - at;
    let n = field.tag.len() as int;
    assert forall|i: int| 0 <= i < have implies bytes[at + i] == #[trigger] whole[i] by {
        assert(bytes.skip(at)[i] == whole.take(have)[i]);
    }
    if have <= n {
        assert forall|i: int| at <= i < bytes.len() implies digits_of::is_digit(
            #[trigger] bytes[i],
        ) by {
            assert(whole[i - at] == field.tag[i - at]);
        }
        digits_of::lemma_skip_digits_is(bytes, at, bytes.len() as int);
    } else {
        assert forall|i: int| at <= i < at + n implies digits_of::is_digit(#[trigger] bytes[i]) by {
            assert(whole[i - at] == field.tag[i - at]);
        }
        assert(whole[n] == 0x3d);
        digits_of::lemma_skip_digits_is(bytes, at, at + n);
        assert forall|i: int| at + n + 1 <= i < bytes.len() implies bytes[i] != 0x01 by {
            assert(whole[i - at] == field.value[i - at - n - 1]);
        }
        digits_of::lemma_find_byte_is(bytes, at + n + 1, 0x01, bytes.len() as int);
    }
}

/// A message that is not there whole is waited for, wherever it is cut.
#[verifier::rlimit(30)]
pub proof fn lemma_unfinished(parser: Fix<'_>, message: Message, n: int)
    requires
        headed(message),
        0 <= n < whole(message).len() <= usize::MAX,
    ensures
        parser.decoding(whole(message).take(n)) == waits(),
{
    let all = whole(message);
    let bytes = all.take(n);
    let a = sent(message.version);
    let b = sent(message.length);
    let second = a.len() as int;
    let first = fields_at(message);
    lemma_parts_stand(message);
    assert(trailer(message).len() == 7);
    reveal(wire_format::frame_spec);
    if n < second {
        assert(bytes.skip(0) =~= a.take(n)) by {
            assert(all.subrange(0, second) == a);
            assert(a.take(n) =~= all.subrange(0, second).take(n));
        }
        lemma_field_cut(bytes, 0, message.version);
    } else {
        assert(bytes.subrange(0, second) =~= all.subrange(0, second));
        lemma_field_is_read(bytes, 0, message.version);
        if n < first {
            assert(bytes.skip(second) =~= all.subrange(second, first).take(n - second));
            lemma_field_cut(bytes, second, message.length);
        } else {
            assert(bytes.subrange(second, first) =~= all.subrange(second, first));
            lemma_field_is_read(bytes, second, message.length);
            text::lemma_written(message.length.value);
        }
    }
}

/// A zero more at the end of a fraction never changes what a price or a size is
/// read as, nor whether it is read.
pub proof fn lemma_trailing_zero_is_nothing(whole: Seq<u8>, frac: Seq<u8>)
    requires
        digits(whole),
        whole.len() >= 1,
        digits(frac),
        frac.len() < 8,
    ensures
        wire_format::decimal_spec(whole + seq![0x2eu8] + frac) == wire_format::decimal_spec(
            whole + seq![0x2eu8] + frac.push(0x30),
        ),
{
    let short = whole + seq![0x2eu8] + frac;
    let zero = frac.push(0x30);
    let long = whole + seq![0x2eu8] + zero;
    assert forall|i: int| 0 <= i < zero.len() implies 0x30 <= #[trigger] zero[i] <= 0x39 by {
        if i < frac.len() {
            assert(zero[i] == frac[i]);
        }
    }
    assert(decimal(short, whole, frac));
    assert(decimal(long, whole, zero));
    text::lemma_decimal_parts(short, whole, frac);
    text::lemma_decimal_parts(long, whole, zero);
    let n = digits_of::fixed_point(short)->0 as int;
    text::lemma_worth(short, n);
    text::lemma_trailing_zero(whole, frac, n);
    text::lemma_worth(long, n);
}

} // verus!
