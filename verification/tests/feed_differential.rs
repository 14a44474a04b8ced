//! The generator writes bytes and their meaning; the parser must recover the
//! meaning from the bytes alone. Exact equality, every field, every message.

use tick_to_trade::feed::fix::Fix;
use tick_to_trade::feed::itch::Itch;
use tick_to_trade::feed::json::Json;
use tick_to_trade::feed::synth;
use tick_to_trade::feed::synth::Generated;
use tick_to_trade::feed::{Event, FeedError, Kind, Parser, Rng, Side, Sink, GENERATOR_SEED};

const MESSAGES: usize = 100_000;

fn assert_roundtrip(name: &str, generated: &Generated, parser: &impl Parser) {
    let mut sink: Vec<Event> = Vec::new();
    let consumed = parser.parse(&generated.bytes, &mut sink).unwrap();
    assert_eq!(consumed, generated.bytes.len(), "{name}: bytes left behind");
    assert_eq!(sink.len(), generated.events.len(), "{name}: event count differs");
    for (index, (got, expected)) in sink.iter().zip(&generated.events).enumerate() {
        assert_eq!(got, expected, "{name}: event {index} differs");
    }
}

#[test]
fn itch_roundtrips_exactly() {
    let generated = synth::itch(MESSAGES, &mut Rng(GENERATOR_SEED));
    assert_roundtrip("itch", &generated, &Itch { symbols: synth::tradfi() });
}

#[test]
fn fix_roundtrips_exactly() {
    let generated = synth::fix(MESSAGES, &mut Rng(GENERATOR_SEED));
    assert_roundtrip("fix", &generated, &Fix { symbols: synth::tradfi() });
}

#[test]
fn json_roundtrips_exactly() {
    let generated = synth::json(MESSAGES, &mut Rng(GENERATOR_SEED));
    assert_roundtrip("json", &generated, &Json { symbols: synth::crypto() });
}

/// Every prefix of a stream parses cleanly: whole messages consumed, the
/// partial tail left, no panic, no overrun.
fn assert_every_prefix_is_safe(name: &str, bytes: &[u8], parser: &impl Parser) {
    // Every prefix of the first few thousand bytes, then a stride through the
    // rest: exhaustive where messages are dense, sampled where they repeat.
    let dense = bytes.len().min(4_096);
    let prefixes = (0..=dense).chain((dense..bytes.len()).step_by(997));
    for cut in prefixes {
        let mut sink: Vec<Event> = Vec::new();
        match parser.parse(&bytes[..cut], &mut sink) {
            Ok(consumed) => assert!(consumed <= cut, "{name}: consumed past the prefix at {cut}"),
            Err(FeedError::NeedMore) => {}
            Err(e) => panic!("{name}: prefix {cut} of a valid stream reported {e:?}"),
        }
    }
}

#[test]
fn itch_survives_every_truncation() {
    let generated = synth::itch(2_000, &mut Rng(GENERATOR_SEED));
    assert_every_prefix_is_safe("itch", &generated.bytes, &Itch { symbols: synth::tradfi() });
}

#[test]
fn fix_survives_every_truncation() {
    let generated = synth::fix(2_000, &mut Rng(GENERATOR_SEED));
    assert_every_prefix_is_safe("fix", &generated.bytes, &Fix { symbols: synth::tradfi() });
}

#[test]
fn json_survives_every_truncation() {
    let generated = synth::json(2_000, &mut Rng(GENERATOR_SEED));
    assert_every_prefix_is_safe("json", &generated.bytes, &Json { symbols: synth::crypto() });
}

const SOH: u8 = 0x01;

/// Builds a FIX message with a correct BodyLength and checksum, so the only
/// thing it can be rejected for is its opening tag.
fn opened_with(begin_tag: &str) -> Vec<u8> {
    message_of(begin_tag, b"35=W\x0155=AAPL\x01")
}

fn message_of(begin_tag: &str, body: &[u8]) -> Vec<u8> {
    let mut out = Vec::new();
    out.extend_from_slice(begin_tag.as_bytes());
    out.extend_from_slice(b"=FIX.4.4");
    out.push(SOH);
    out.extend_from_slice(format!("9={}", body.len()).as_bytes());
    out.push(SOH);
    out.extend_from_slice(body);
    let sum: u32 = out.iter().map(|byte| u32::from(*byte)).sum();
    out.extend_from_slice(format!("10={:03}", sum % 256).as_bytes());
    out.push(SOH);
    out
}

/// A field whose digits wrap must be refused, not reinterpreted.
#[test]
fn a_field_whose_digits_wrap_is_refused_not_reinterpreted() {
    let mut sink: Vec<Event> = Vec::new();
    let fix = Fix { symbols: synth::tradfi() };
    // The control: the same message with the tag FIX actually uses.
    let sound = opened_with("8");
    assert_eq!(
        fix.parse(&sound, &mut sink),
        Ok(sound.len()),
        "the control message must parse, or the case below proves nothing"
    );

    // 2^32 + 8 accumulated into a u32 wraps to exactly 8.
    let wrapped = opened_with("4294967304");
    assert!(
        matches!(fix.parse(&wrapped, &mut sink), Err(FeedError::Malformed { .. })),
        "a tag whose digits wrapped to 8 was accepted as BeginString"
    );

    // Twenty digits into a u64 trade id.
    let json = Json { symbols: synth::crypto() };
    let body = "{\"e\":\"trade\",\"E\":1700000000000,\"s\":\"BTCUSDT\",                \"t\":18446744073709551617,\"p\":\"10.5\",\"q\":\"2.0\",\"m\":false}\n";
    assert!(
        matches!(json.parse(body.as_bytes(), &mut sink), Err(FeedError::Malformed { .. })),
        "a trade id whose digits wrapped was accepted"
    );
}

#[test]
fn a_price_no_integer_can_hold_is_refused_not_wrapped() {
    let parser = Json { symbols: synth::crypto() };
    let mut sink: Vec<Event> = Vec::new();
    let message = |price: &str, qty: &str| {
        format!(
            "{{\"e\":\"trade\",\"E\":1700000000000,\"s\":\"BTCUSDT\",\"t\":1,             \"p\":\"{price}\",\"q\":\"{qty}\",\"m\":false}}\n"
        )
    };

    // A shape the parser does accept, so the rejections below are about the
    // numbers rather than about the message being unrecognisable.
    let valid = message("10.5", "2.0");
    assert_eq!(parser.parse(valid.as_bytes(), &mut sink), Ok(valid.len()));

    for (price, qty) in [
        // Past the digit cap outright.
        ("99999999999999999999", "1.0"),
        ("1.0", "99999999999999999999"),
        // Inside the cap, unrepresentable only once scaled.
        ("999999999999999999", "1.0"),
        ("1.0", "999999999999999999"),
        // 2^64 + 1, which wraps to one.
        ("18446744073709551617", "1.0"),
        ("1.0", "18446744073709551617"),
    ] {
        let body = message(price, qty);
        assert!(
            matches!(parser.parse(body.as_bytes(), &mut sink), Err(FeedError::Malformed { .. })),
            "accepted an unrepresentable number: p={price} q={qty}"
        );
    }
}

#[test]
fn a_length_no_integer_can_hold_is_refused_not_a_crash() {
    // Nineteen nines overflow an i64.
    let stream = b"8=FIX.4.4\x019=9999999999999999999\x0135=W\x0110=000\x01";
    let parser = Fix { symbols: synth::tradfi() };
    let mut sink: Vec<Event> = Vec::new();
    assert!(matches!(parser.parse(stream, &mut sink), Err(FeedError::Malformed { .. })));
}

fn parse_any(name: &str, bytes: &[u8], sink: &mut Vec<Event>) -> Result<usize, FeedError> {
    match name {
        "itch" => Itch { symbols: synth::tradfi() }.parse(bytes, sink),
        "fix" => Fix { symbols: synth::tradfi() }.parse(bytes, sink),
        _ => Json { symbols: synth::crypto() }.parse(bytes, sink),
    }
}

#[test]
fn corrupted_streams_are_refused_not_reinterpreted() {
    let mut rng = Rng(GENERATOR_SEED ^ 0xdead);
    let cases: [(&str, Generated); 3] = [
        ("itch", synth::itch(200, &mut Rng(GENERATOR_SEED))),
        ("fix", synth::fix(200, &mut Rng(GENERATOR_SEED))),
        ("json", synth::json(200, &mut Rng(GENERATOR_SEED))),
    ];
    for (name, generated) in &cases {
        let mut clean: Vec<Event> = Vec::new();
        parse_any(name, &generated.bytes, &mut clean).unwrap();

        for _ in 0..500 {
            let mut corrupt = generated.bytes.clone();
            let at = rng.below(corrupt.len() as u64) as usize;
            let bit = 1 << rng.below(8);
            corrupt[at] ^= bit;

            let mut sink: Vec<Event> = Vec::new();
            match parse_any(name, &corrupt, &mut sink) {
                // Refused: correct.
                Err(_) => {}
                // Accepted: a flip may land in a field's value, which is
                // undetectable without a checksum. FIX has one, so it must
                // refuse any flip.
                Ok(_) => {
                    if *name == "fix" {
                        panic!("fix accepted a corrupted byte at {at} despite its checksum");
                    }
                }
            }
        }
    }
}

fn fnv1a(bytes: &[u8]) -> u64 {
    let mut hash = 0xcbf2_9ce4_8422_2325_u64;
    for byte in bytes {
        hash ^= u64::from(*byte);
        hash = hash.wrapping_mul(0x0000_0100_0000_01b3);
    }
    hash
}

/// The generated streams are pinned byte for byte.
#[test]
fn streams_match_the_cross_language_fingerprints() {
    let itch = fnv1a(&synth::itch(1_000, &mut Rng(GENERATOR_SEED)).bytes);
    let fix = fnv1a(&synth::fix(1_000, &mut Rng(GENERATOR_SEED)).bytes);
    let json = fnv1a(&synth::json(1_000, &mut Rng(GENERATOR_SEED)).bytes);
    println!("fingerprint itch {itch:x} fix {fix:x} json {json:x}");
    assert_eq!(itch, 0xa979_5807_4d83_d4f6, "itch stream changed");
    assert_eq!(fix, 0xe78f_c2c9_75f9_d42c, "fix stream changed");
    assert_eq!(json, 0x98f0_cfe0_e468_699f, "json stream changed");
}

// ------------------------------------------------------------------ single cases

/// Splitting a stream anywhere and re-offering the tail gives the same events.
fn assert_resumes(bytes: &[u8], parser: &impl Parser) {
    let mut whole: Vec<Event> = Vec::new();
    let end = parser.parse(bytes, &mut whole);
    for cut in (0..bytes.len()).step_by(7) {
        let mut sink: Vec<Event> = Vec::new();
        let consumed = parser.parse(&bytes[..cut], &mut sink).unwrap();
        let rest = parser.parse(&bytes[consumed..], &mut sink);
        assert_eq!(rest.map(|more| more + consumed), end);
        assert_eq!(sink, whole);
    }
}

#[test]
fn streams_resume_from_any_cut() {
    let itch = synth::itch(40, &mut Rng(3));
    assert_resumes(&itch.bytes, &Itch { symbols: synth::tradfi() });
    let fix = synth::fix(20, &mut Rng(3));
    assert_resumes(&fix.bytes, &Fix { symbols: synth::tradfi() });
    let json = synth::json(20, &mut Rng(3));
    assert_resumes(&json.bytes, &Json { symbols: synth::crypto() });
}

#[test]
fn an_itch_add_is_read_field_by_field() {
    let mut frame: Vec<u8> = vec![0, 36, b'A', 0, 2, 0, 0];
    frame.extend_from_slice(&[0; 6]);
    frame.extend_from_slice(&77u64.to_be_bytes());
    frame.push(b'S');
    frame.extend_from_slice(&250u32.to_be_bytes());
    let name = synth::tradfi()[2];
    frame.extend_from_slice(name);
    frame.resize(2 + 24 + 8, b' ');
    frame.extend_from_slice(&1_234_500u32.to_be_bytes());
    assert_eq!(frame.len(), 38);
    let parser = Itch { symbols: synth::tradfi() };
    let mut events: Vec<Event> = Vec::new();
    assert_eq!(parser.parse(&frame, &mut events), Ok(38));
    assert_eq!(
        events,
        vec![Event {
            kind: Kind::Add,
            side: Side::Ask,
            symbol: 2,
            price: 12_345_000_000,
            qty: 25_000_000_000,
            order_id: 77,
            aux: 0,
        }]
    );

    // The stock name disagrees with the locate.
    let mut other = frame.clone();
    other[26] = b'!';
    assert!(matches!(
        parser.parse(&other, &mut events),
        Err(FeedError::UnknownSymbol { .. })
    ));
    // The locate is beyond the table.
    let mut beyond = frame.clone();
    beyond[4] = 9;
    assert!(matches!(
        parser.parse(&beyond, &mut events),
        Err(FeedError::UnknownSymbol { .. })
    ));
    // Neither buy nor sell.
    let mut sideless = frame.clone();
    sideless[21] = b'Q';
    assert!(matches!(
        parser.parse(&sideless, &mut events),
        Err(FeedError::Malformed { .. })
    ));
    assert_eq!(events.len(), 1);
}

#[test]
fn a_fix_message_cut_short_waits_and_a_wrong_checksum_is_refused() {
    let parser = Fix { symbols: synth::tradfi() };
    let mut events: Vec<Event> = Vec::new();
    let sound = opened_with("8");
    assert_eq!(parser.parse(&sound[..sound.len() - 1], &mut events), Ok(0));
    let mut summed_wrong = sound.clone();
    let at = sound.len() - 2;
    summed_wrong[at] = if sound[at] == b'9' { b'0' } else { sound[at] + 1 };
    assert!(matches!(
        parser.parse(&summed_wrong, &mut events),
        Err(FeedError::Malformed { .. })
    ));
    assert!(events.is_empty());
}

#[test]
fn an_unknown_symbol_is_reported_by_each_format() {
    let mut events: Vec<Event> = Vec::new();
    let delete = itch_frame(b'D', 9, 19);
    assert_eq!(
        Itch { symbols: synth::tradfi() }.parse(&delete, &mut events),
        Err(FeedError::UnknownSymbol { offset: 0 })
    );
    let message = message_of("8", b"35=W\x0155=NOPE\x01");
    assert!(matches!(
        Fix { symbols: synth::tradfi() }.parse(&message, &mut events),
        Err(FeedError::UnknownSymbol { .. })
    ));
    let line = "{\"e\":\"trade\",\"E\":1,\"s\":\"NOPEUSDT\",\"t\":1,\"p\":\"1.0\",\"q\":\"1.0\",\"m\":true}\n";
    assert!(matches!(
        Json { symbols: synth::crypto() }.parse(line.as_bytes(), &mut events),
        Err(FeedError::UnknownSymbol { .. })
    ));
    assert!(events.is_empty());
}

#[test]
fn a_json_trade_is_read_field_by_field() {
    let name = String::from_utf8(synth::crypto()[1].to_vec()).unwrap();
    let line = format!(
        "{{\"e\":\"trade\",\"E\":1700000000000,\"s\":\"{name}\",\"t\":42,\"p\":\"10.5\",\"q\":\"0.25\",\"m\":true}}\n"
    );
    let mut events: Vec<Event> = Vec::new();
    let parser = Json { symbols: synth::crypto() };
    assert_eq!(parser.parse(line.as_bytes(), &mut events), Ok(line.len()));
    assert_eq!(events.len(), 1);
    assert_eq!(events[0].kind, Kind::Trade);
    assert_eq!(events[0].symbol, 1);
    assert_eq!(events[0].price, 1_050_000_000);
    assert_eq!(events[0].qty, 25_000_000);
    assert_eq!(events[0].aux, 42);
}

#[test]
fn an_empty_stream_is_no_message_in_every_format() {
    let mut events: Vec<Event> = Vec::new();
    for name in ["itch", "fix", "json"] {
        assert_eq!(parse_any(name, &[], &mut events), Ok(0));
    }
    assert!(events.is_empty());
}

#[test]
fn a_vector_sink_keeps_order() {
    let mut sink: Vec<Event> = Vec::new();
    let first = Event::zeroed();
    let second = Event { order_id: 5, ..first };
    sink.accept(&first);
    sink.accept(&second);
    assert_eq!(sink, vec![first, second]);
}

/// A frame of a type, a locate and a length, the rest zero.
fn itch_frame(kind: u8, locate: u16, length: usize) -> Vec<u8> {
    let mut frame: Vec<u8> = (length as u16).to_be_bytes().to_vec();
    frame.push(kind);
    frame.extend_from_slice(&locate.to_be_bytes());
    frame.resize(2 + length, 0);
    frame
}

#[test]
fn itch_messages_for_somebody_else_are_skipped_at_their_length() {
    let parser = Itch { symbols: synth::tradfi() };
    let mut events: Vec<Event> = Vec::new();
    for (kind, length) in [
        (b'S', 12usize),
        (b'R', 39),
        (b'H', 25),
        (b'Y', 20),
        (b'L', 26),
        (b'V', 35),
        (b'W', 12),
        (b'K', 28),
        (b'J', 35),
        (b'h', 21),
        (b'Q', 40),
        (b'B', 19),
        (b'I', 50),
        (b'N', 20),
        (b'O', 48),
    ] {
        // The locate is nobody's business here.
        let frame = itch_frame(kind, 900, length);
        assert_eq!(parser.parse(&frame, &mut events), Ok(2 + length), "{}", kind as char);
        let short = itch_frame(kind, 900, length - 1);
        assert_eq!(
            parser.parse(&short, &mut events),
            Err(FeedError::Malformed { offset: 0 }),
            "{}",
            kind as char
        );
    }
    assert!(events.is_empty());
    // They do not hide what stands around them.
    let generated = synth::itch(1, &mut Rng(GENERATOR_SEED));
    let mut stream = itch_frame(b'I', 0, 50);
    stream.extend_from_slice(&generated.bytes);
    stream.extend(itch_frame(b'Q', 0, 40));
    assert_eq!(parser.parse(&stream, &mut events), Ok(stream.len()));
    assert_eq!(events, generated.events);
}

#[test]
fn itch_messages_that_would_move_the_book_are_not_skipped() {
    let parser = Itch { symbols: synth::tradfi() };
    let mut events: Vec<Event> = Vec::new();
    // An attributed add, and an execution at a price.
    for (kind, length) in [(b'F', 40usize), (b'C', 36)] {
        assert_eq!(
            parser.parse(&itch_frame(kind, 0, length), &mut events),
            Err(FeedError::Malformed { offset: 0 })
        );
    }
    assert!(events.is_empty());
}

#[test]
fn every_itch_event_is_about_a_symbol_of_the_table() {
    let parser = Itch { symbols: synth::tradfi() };
    let mut events: Vec<Event> = Vec::new();
    for (kind, length) in [(b'E', 31usize), (b'X', 23), (b'D', 19), (b'U', 35)] {
        let known = itch_frame(kind, 1, length);
        assert_eq!(parser.parse(&known, &mut events), Ok(2 + length));
        let mut stream = known.clone();
        stream.extend(itch_frame(kind, 9, length));
        assert_eq!(
            parser.parse(&stream, &mut events),
            Err(FeedError::UnknownSymbol { offset: 2 + length })
        );
    }
    assert_eq!(events.len(), 8);
    assert!(events.iter().all(|event| event.symbol == 1));
}

#[test]
fn an_itch_trade_must_name_the_stock_of_its_locate() {
    let parser = Itch { symbols: synth::tradfi() };
    let mut trade = itch_frame(b'P', 1, 44);
    trade[21] = b'B';
    for (at, byte) in trade[26..34].iter_mut().enumerate() {
        *byte = *synth::tradfi()[1].get(at).unwrap_or(&b' ');
    }
    let mut events: Vec<Event> = Vec::new();
    assert_eq!(parser.parse(&trade, &mut events), Ok(46));
    assert_eq!(events.len(), 1);
    assert_eq!((events[0].kind, events[0].symbol), (Kind::Trade, 1));
    for locate in [0u8, 9] {
        trade[4] = locate;
        assert_eq!(
            parser.parse(&trade, &mut events),
            Err(FeedError::UnknownSymbol { offset: 0 })
        );
    }
    assert_eq!(events.len(), 1);
}

fn trade_line(member: &str) -> String {
    format!(
        "{{\"e\":\"trade\",\"E\":1,\"s\":\"BTCUSDT\",\"t\":7,\"p\":\"1.0\",\"q\":\"1.0\",{member}}}\n"
    )
}

#[test]
fn a_json_boolean_is_a_whole_word() {
    let parser = Json { symbols: synth::crypto() };
    for (word, side) in [("true", Side::Ask), ("false", Side::Bid)] {
        let mut events: Vec<Event> = Vec::new();
        let line = trade_line(&format!("\"m\":{word}"));
        assert_eq!(parser.parse(line.as_bytes(), &mut events), Ok(line.len()));
        assert_eq!(events.len(), 1);
        assert_eq!(events[0].side, side);
    }
    for word in ["txyz", "trux", "tru", "fxxxx", "fals", "0"] {
        let mut events: Vec<Event> = Vec::new();
        let line = trade_line(&format!("\"m\":{word}"));
        assert_eq!(
            parser.parse(line.as_bytes(), &mut events),
            Err(FeedError::Malformed { offset: 0 }),
            "{word}"
        );
        assert!(events.is_empty());
    }
}

#[test]
fn a_json_value_that_nobody_needs_is_skipped_whatever_it_is() {
    let parser = Json { symbols: synth::crypto() };
    for value in [
        "\"plain\"",
        "\"an \\\"escaped\\\" quote\"",
        "\"ends in a backslash \\\\\"",
        "\"a , and a } inside\"",
        "[1,{\"deep\":\"]}\"}]",
        "-12.5e3",
        "null",
    ] {
        let mut events: Vec<Event> = Vec::new();
        let line = trade_line(&format!("\"Z\":{value},\"m\":true"));
        assert_eq!(parser.parse(line.as_bytes(), &mut events), Ok(line.len()), "{value}");
        assert_eq!(events.len(), 1, "{value}");
    }
}

#[test]
fn a_json_trade_id_has_at_least_a_digit() {
    let parser = Json { symbols: synth::crypto() };
    let mut events: Vec<Event> = Vec::new();
    let line = "{\"e\":\"trade\",\"s\":\"BTCUSDT\",\"t\":,\"p\":\"1.0\",\"q\":\"1.0\",\"m\":true}\n";
    assert_eq!(
        parser.parse(line.as_bytes(), &mut events),
        Err(FeedError::Malformed { offset: 0 })
    );
    assert!(events.is_empty());
}

#[test]
fn a_fix_message_that_is_not_market_data_says_nothing() {
    let parser = Fix { symbols: synth::tradfi() };
    for (kind, count) in [("W", 1usize), ("X", 1), ("0", 0), ("A", 0), ("WX", 0)] {
        let body = format!(
            "35={kind}\x0155=AAPL\x01269=0\x01270=10.5\x01271=2\x01"
        );
        let message = message_of("8", body.as_bytes());
        let mut events: Vec<Event> = Vec::new();
        assert_eq!(parser.parse(&message, &mut events), Ok(message.len()), "{kind}");
        assert_eq!(events.len(), count, "{kind}");
    }
}

#[test]
fn a_fix_message_with_any_byte_changed_says_nothing() {
    let parser = Fix { symbols: synth::tradfi() };
    for seed in 1u64..6 {
        let generated = synth::fix(1, &mut Rng(seed));
        for at in 0..generated.bytes.len() {
            for byte in 0..=255u8 {
                let mut changed = generated.bytes.clone();
                if changed[at] == byte {
                    continue;
                }
                changed[at] = byte;
                let mut events: Vec<Event> = Vec::new();
                let result = parser.parse(&changed, &mut events);
                assert!(result.is_err() || result == Ok(0), "byte {at} as {byte}: {result:?}");
                assert!(events.is_empty(), "byte {at} as {byte}");
            }
        }
    }
}

/// Where the messages of a stream end, by reading it one byte longer at a time.
fn assert_cuts_at_messages(bytes: &[u8], parser: &impl Parser) {
    let mut whole: Vec<Event> = Vec::new();
    assert_eq!(parser.parse(bytes, &mut whole), Ok(bytes.len()));
    let mut last_stop = 0;
    let mut last_count = 0;
    for cut in 0..=bytes.len() {
        let mut events: Vec<Event> = Vec::new();
        let stop = parser.parse(&bytes[..cut], &mut events).unwrap();
        // A message more, and it ends here; or nothing changed.
        if stop == last_stop {
            assert_eq!(events.len(), last_count);
        } else {
            assert_eq!(stop, cut);
            assert!(events.len() >= last_count);
        }
        assert_eq!(events[..], whole[..events.len()]);
        last_stop = stop;
        last_count = events.len();
    }
    assert_eq!(last_stop, bytes.len());
    assert_eq!(last_count, whole.len());
}

#[test]
fn a_cut_stream_stops_at_its_last_whole_message() {
    let itch = synth::itch(30, &mut Rng(9));
    assert_cuts_at_messages(&itch.bytes, &Itch { symbols: synth::tradfi() });
    let fix = synth::fix(8, &mut Rng(9));
    assert_cuts_at_messages(&fix.bytes, &Fix { symbols: synth::tradfi() });
    let json = synth::json(8, &mut Rng(9));
    assert_cuts_at_messages(&json.bytes, &Json { symbols: synth::crypto() });
}

#[test]
fn json_levels_stand_between_commas() {
    let parser = Json { symbols: synth::crypto() };
    let depth = |levels: &str| format!("{{\"e\":\"depthUpdate\",\"s\":\"BTCUSDT\",\"b\":[{levels}]}}\n");
    for (levels, count) in [
        ("", 0usize),
        ("[\"1\",\"2\"]", 1),
        ("[\"1\",\"2\"],[\"3\",\"4\"]", 2),
        (" [ \"1\" , \"2\" ] , [\"3\",\"4\"] ", 2),
    ] {
        let mut events: Vec<Event> = Vec::new();
        let line = depth(levels);
        assert_eq!(parser.parse(line.as_bytes(), &mut events), Ok(line.len()), "{levels}");
        assert_eq!(events.len(), count, "{levels}");
    }
    for levels in [
        ",",
        "[\"1\",\"2\"],",
        "[\"1\",\"2\"][\"3\",\"4\"]",
        "[\"1\",\"2\"],,[\"3\",\"4\"]",
        "[\"1\",\"2\"]x",
        "[\"1\"]",
    ] {
        let mut events: Vec<Event> = Vec::new();
        let line = depth(levels);
        assert_eq!(
            parser.parse(line.as_bytes(), &mut events),
            Err(FeedError::Malformed { offset: 0 }),
            "{levels}"
        );
    }
}

#[test]
fn what_a_kind_does_not_use_is_zero() {
    let streams = [
        ("itch", synth::itch(500, &mut Rng(4)), synth::tradfi().len()),
        ("fix", synth::fix(100, &mut Rng(4)), synth::tradfi().len()),
        ("json", synth::json(100, &mut Rng(4)), synth::crypto().len()),
    ];
    for (name, generated, symbols) in &streams {
        let mut events: Vec<Event> = Vec::new();
        parse_any(name, &generated.bytes, &mut events).unwrap();
        for event in &events {
            assert!((event.symbol as usize) < *symbols);
            let unused = match event.kind {
                Kind::Add => event.aux == 0,
                Kind::Execute => event.side == Side::Bid && event.price == 0,
                Kind::Cancel => event.side == Side::Bid && event.price == 0 && event.aux == 0,
                Kind::Delete => {
                    event.side == Side::Bid
                        && (event.price, event.qty, event.aux) == (0, 0, 0)
                }
                Kind::Replace => event.side == Side::Bid,
                Kind::Level => (event.order_id, event.aux) == (0, 0),
                Kind::Trade => true,
            };
            assert!(unused, "{name}: {event:?}");
        }
    }
}

#[test]
fn a_fix_message_may_say_its_type_anywhere() {
    let parser = Fix { symbols: synth::tradfi() };
    let fields = ["55=AAPL", "269=0", "270=1", "271=1", "269=1", "270=2", "271=3"];
    let mut told: Vec<Event> = Vec::new();
    for at in 0..=fields.len() {
        let mut body = String::new();
        for (index, field) in fields.iter().enumerate() {
            if index == at {
                body.push_str("35=W\x01");
            }
            body.push_str(field);
            body.push('\x01');
        }
        if at == fields.len() {
            body.push_str("35=W\x01");
        }
        let message = message_of("8", body.as_bytes());
        let mut events: Vec<Event> = Vec::new();
        assert_eq!(parser.parse(&message, &mut events), Ok(message.len()), "type at {at}");
        assert_eq!(events.len(), 2, "type at {at}");
        assert_eq!((events[0].side, events[0].price), (Side::Bid, 100_000_000));
        assert_eq!((events[1].side, events[1].price), (Side::Ask, 200_000_000));
        if at > 0 {
            assert_eq!(events, told, "type at {at}");
        }
        told = events;
    }
}

#[test]
fn a_fix_message_without_a_market_data_type_is_read_but_says_nothing() {
    let parser = Fix { symbols: synth::tradfi() };
    let mut events: Vec<Event> = Vec::new();
    for body in [
        "55=AAPL\x01269=0\x01270=1\x01271=1\x01",
        "55=AAPL\x01269=0\x01270=1\x01271=1\x0135=0\x01",
        "35=0\x0155=AAPL\x01269=0\x01270=1\x01271=1\x01",
        "35=0\x0155=NOPE\x01269=9\x01270=x\x01",
    ] {
        let message = message_of("8", body.as_bytes());
        assert_eq!(parser.parse(&message, &mut events), Ok(message.len()), "{body:?}");
    }
    // Before the type, and without one, a field is not for somebody else yet.
    for body in ["55=NOPE\x0135=0\x01", "55=NOPE\x01"] {
        let message = message_of("8", body.as_bytes());
        assert_eq!(
            parser.parse(&message, &mut events),
            Err(FeedError::UnknownSymbol { offset: 0 }),
            "{body:?}"
        );
    }
    assert!(events.is_empty());
}

/// Every prefix of a generated session is the messages that lie whole in it.
#[test]
fn a_generated_session_cut_short_is_its_whole_messages() {
    let parser = Itch { symbols: synth::tradfi() };
    let generated = synth::itch(25, &mut Rng(8));
    let mut ends = vec![0usize];
    while ends[ends.len() - 1] < generated.bytes.len() {
        let at = ends[ends.len() - 1];
        let length = u16::from_be_bytes([generated.bytes[at], generated.bytes[at + 1]]);
        ends.push(at + 2 + length as usize);
    }
    assert_eq!(ends.len(), 26);
    for cut in 0..=generated.bytes.len() {
        let whole = ends.iter().filter(|end| **end <= cut).count() - 1;
        let mut events: Vec<Event> = Vec::new();
        assert_eq!(parser.parse(&generated.bytes[..cut], &mut events), Ok(ends[whole]));
        assert_eq!(events, generated.events[..whole]);
    }
}
