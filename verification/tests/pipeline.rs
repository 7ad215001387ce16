use station_agg::render::summarize;
use station_agg::{AggError, RecordError};

fn run(input: &[u8]) -> Result<String, RecordError> {
    summarize(input).map(|v| String::from_utf8(v).unwrap())
}

fn err(kind: AggError, record: u64) -> RecordError {
    RecordError { kind, record }
}

#[test]
fn two_stations_three_records() {
    let out = run(b"A;3.0\nB;-1.5\nA;5.0\n").unwrap();
    assert_eq!(out, "{A=3.0/4.0/5.0, B=-1.5/-1.5/-1.5}");
}

#[test]
fn mean_rounds_to_zero_with_symmetric_values() {
    let out = run(b"X;-0.1\nX;0.1\n").unwrap();
    assert_eq!(out, "{X=-0.1/0.0/0.1}");
}

#[test]
fn empty_input_yields_empty_braces() {
    let out = run(b"").unwrap();
    assert_eq!(out, "{}");
}

#[test]
fn single_record_min_equals_mean_equals_max() {
    let out = run(b"Oslo;-7.3\n").unwrap();
    assert_eq!(out, "{Oslo=-7.3/-7.3/-7.3}");
}

#[test]
fn missing_final_newline_still_parses() {
    let out = run(b"A;1.0\nB;2.0").unwrap();
    assert_eq!(out, "{A=1.0/1.0/1.0, B=2.0/2.0/2.0}");
}

#[test]
fn carriage_return_before_newline_is_stripped() {
    let out = run(b"A;1.5\r\nB;-2.5\r\n").unwrap();
    assert_eq!(out, "{A=1.5/1.5/1.5, B=-2.5/-2.5/-2.5}");
}

#[test]
fn keys_sorted_byte_lexicographically() {
    let out = run(b"b;1.0\nB;2.0\na;3.0\nA;4.0\n").unwrap();
    assert_eq!(out, "{A=4.0/4.0/4.0, B=2.0/2.0/2.0, a=3.0/3.0/3.0, b=1.0/1.0/1.0}");
}

#[test]
fn output_independent_of_record_order() {
    let a = run(b"A;3.0\nB;-1.5\nA;5.0\n").unwrap();
    let b = run(b"B;-1.5\nA;5.0\nA;3.0\n").unwrap();
    let c = run(b"A;5.0\nA;3.0\nB;-1.5\n").unwrap();
    assert_eq!(a, b);
    assert_eq!(b, c);
}

#[test]
fn colliding_keys_keep_separate_records() {
    // both keys share the first eight bytes and the length, so they share a
    // home slot and collide in the table
    assert_eq!(
        station_agg::table::StationTable::hash(b"AAAAAAAAX"),
        station_agg::table::StationTable::hash(b"AAAAAAAAY"),
    );
    let out = run(b"AAAAAAAAX;1.0\nAAAAAAAAY;2.0\nAAAAAAAAX;3.0\n").unwrap();
    assert_eq!(out, "{AAAAAAAAX=1.0/2.0/3.0, AAAAAAAAY=2.0/2.0/2.0}");
}

#[test]
fn mean_rounds_half_away_from_zero() {
    assert_eq!(run(b"K;0.1\nK;0.2\n").unwrap(), "{K=0.1/0.2/0.2}");
    assert_eq!(run(b"K;-0.1\nK;-0.2\n").unwrap(), "{K=-0.2/-0.2/-0.1}");
}

#[test]
fn missing_separator_is_malformed() {
    assert_eq!(run(b"A3.0\n"), Err(err(AggError::MalformedRecord, 1)));
}

#[test]
fn empty_key_is_malformed() {
    assert_eq!(run(b";3.0\n"), Err(err(AggError::MalformedRecord, 1)));
}

#[test]
fn bad_values_are_malformed() {
    assert_eq!(run(b"A;\n"), Err(err(AggError::MalformedRecord, 1)));
    assert_eq!(run(b"A;1\n"), Err(err(AggError::MalformedRecord, 1)));
    assert_eq!(run(b"A;1.\n"), Err(err(AggError::MalformedRecord, 1)));
    assert_eq!(run(b"A;1.23\n"), Err(err(AggError::MalformedRecord, 1)));
    assert_eq!(run(b"A;x.y\n"), Err(err(AggError::MalformedRecord, 1)));
    assert_eq!(run(b"A;-.5\n"), Err(err(AggError::MalformedRecord, 1)));
    assert_eq!(run(b"A;3,5\n"), Err(err(AggError::MalformedRecord, 1)));
}

#[test]
fn value_out_of_range_is_malformed() {
    assert_eq!(run(b"A;99999999999.9\n"), Err(err(AggError::MalformedRecord, 1)));
    assert_eq!(run(b"A;-99999999999.9\n"), Err(err(AggError::MalformedRecord, 1)));
}

#[test]
fn leading_zeroes_in_value_are_accepted() {
    assert_eq!(run(b"A;007.5\n").unwrap(), "{A=7.5/7.5/7.5}");
}

#[test]
fn first_error_in_record_order_wins() {
    // the malformed second record is hit before the over-long key in the third
    let long_key = vec![b'q'; 101];
    let mut input = b"A;1.0\nB;bad\n".to_vec();
    input.extend_from_slice(&long_key);
    input.extend_from_slice(b";2.0\n");
    assert_eq!(run(&input), Err(err(AggError::MalformedRecord, 2)));
}

#[test]
fn key_longer_than_bound_is_rejected() {
    let mut input = vec![b'k'; 101];
    input.extend_from_slice(b";1.0\n");
    assert_eq!(run(&input), Err(err(AggError::KeyTooLong, 1)));
}

#[test]
fn key_at_bound_is_accepted() {
    let key = vec![b'k'; 100];
    let mut input = key.clone();
    input.extend_from_slice(b";1.0\n");
    let expected = format!("{}{}{}", "{", String::from_utf8(key).unwrap(), "=1.0/1.0/1.0}");
    assert_eq!(run(&input).unwrap(), expected);
}

#[test]
fn table_overflow_is_reported() {
    // one more distinct key than the table has slots
    let mut input: Vec<u8> = Vec::new();
    for i in 0..65537u32 {
        input.push(128 + ((i >> 14) & 0x7f) as u8);
        input.push(128 + ((i >> 7) & 0x7f) as u8);
        input.push(128 + (i & 0x7f) as u8);
        input.extend_from_slice(b";0.0\n");
    }
    assert_eq!(run(&input), Err(err(AggError::TableFull, 65537)));
}

#[test]
fn repeated_keys_never_overflow_the_table() {
    let mut input: Vec<u8> = Vec::new();
    for i in 0..1000u32 {
        input.extend_from_slice(b"Same;");
        input.extend_from_slice(format!("{}.{}", i / 10, i % 10).as_bytes());
        input.push(b'\n');
    }
    // values 0.0 .. 99.9, sum of 0..=999 is 499500, mean 49.95 rounds to 50.0
    assert_eq!(run(&input).unwrap(), "{Same=0.0/50.0/99.9}");
}

#[test]
fn invalid_utf8_key_is_a_decoding_error() {
    assert_eq!(run(b"\xFF;1.0\n"), Err(err(AggError::KeyNotText, 1)));
    // overlong encoding
    assert_eq!(run(b"\xC0\xAF;1.0\n"), Err(err(AggError::KeyNotText, 1)));
    // surrogate range
    assert_eq!(run(b"\xED\xA0\x80;1.0\n"), Err(err(AggError::KeyNotText, 1)));
    // truncated multi-byte sequence
    assert_eq!(run(b"\xC3;1.0\n"), Err(err(AggError::KeyNotText, 1)));
}

#[test]
fn one_bad_key_among_good_ones_is_rejected() {
    // in sorted output order the invalid key follows "Also" and "Good"
    assert_eq!(run(b"Good;1.0\n\xFE;2.0\nAlso;3.0\n"), Err(err(AggError::KeyNotText, 3)));
}

#[test]
fn multibyte_utf8_keys_are_accepted() {
    let out = run("Z\u{fc}rich;1.5\n\u{1F600};2.0\n".as_bytes()).unwrap();
    assert_eq!(out, "{Z\u{fc}rich=1.5/1.5/1.5, \u{1F600}=2.0/2.0/2.0}");
}

#[test]
fn line_without_separator_merges_into_next_key() {
    // the separator search runs past line breaks, as in the reference scanner
    let out = run(b"A\nB;1.0\n").unwrap();
    assert_eq!(out, "{A\nB=1.0/1.0/1.0}");
}
