use station_agg::decode::{parse_temp, render_temp};
use station_agg::extract::lex_lt;
use station_agg::stats::StationStats;
use station_agg::table::{bytes_eq, StationTable};
use station_agg::AggError;

#[test]
fn parse_temp_decodes_scaled_values() {
    assert_eq!(parse_temp(b"4.5"), Ok(45));
    assert_eq!(parse_temp(b"-12.3"), Ok(-123));
    assert_eq!(parse_temp(b"0.0"), Ok(0));
    assert_eq!(parse_temp(b"-0.1"), Ok(-1));
    assert_eq!(parse_temp(b"99.9"), Ok(999));
}

#[test]
fn parse_temp_rejects_bad_shapes() {
    assert_eq!(parse_temp(b""), Err(AggError::MalformedRecord));
    assert_eq!(parse_temp(b"-"), Err(AggError::MalformedRecord));
    assert_eq!(parse_temp(b"5"), Err(AggError::MalformedRecord));
    assert_eq!(parse_temp(b"5."), Err(AggError::MalformedRecord));
    assert_eq!(parse_temp(b".5"), Err(AggError::MalformedRecord));
    assert_eq!(parse_temp(b"5.55"), Err(AggError::MalformedRecord));
    assert_eq!(parse_temp(b"5 .5"), Err(AggError::MalformedRecord));
    assert_eq!(parse_temp(b"--5.5"), Err(AggError::MalformedRecord));
    assert_eq!(parse_temp(b"5.5\n"), Err(AggError::MalformedRecord));
}

#[test]
fn decode_inverts_render() {
    for v in [
        0i32,
        1,
        -1,
        45,
        -123,
        999,
        -999,
        1000,
        123456789,
        i32::MAX,
        i32::MIN,
        i32::MAX - 1,
        i32::MIN + 1,
    ] {
        let text = render_temp(v);
        assert_eq!(parse_temp(&text), Ok(v), "round trip of {}", v);
    }
}

#[test]
fn render_extremes() {
    assert_eq!(render_temp(i32::MAX), b"214748364.7");
    assert_eq!(render_temp(i32::MIN), b"-214748364.8");
    assert_eq!(render_temp(0), b"0.0");
    assert_eq!(render_temp(-5), b"-0.5");
}

#[test]
fn stats_fold_values() {
    let mut s = StationStats::new();
    assert_eq!(s.count, 0);
    s.update(30);
    s.update(50);
    assert_eq!(s.min, 30);
    assert_eq!(s.max, 50);
    assert_eq!(s.sum, 80);
    assert_eq!(s.count, 2);
    assert_eq!(s.mean_scaled(), 40);
}

#[test]
fn mean_scaled_rounds_half_away_from_zero() {
    let mut s = StationStats::new();
    s.update(1);
    s.update(2);
    assert_eq!(s.mean_scaled(), 2);
    let mut n = StationStats::new();
    n.update(-1);
    n.update(-2);
    assert_eq!(n.mean_scaled(), -2);
}

#[test]
fn table_aggregates_per_key() {
    let mut t = StationTable::new();
    t.lookup_or_insert(b"Oslo", 30).unwrap();
    t.lookup_or_insert(b"Bergen", -15).unwrap();
    t.lookup_or_insert(b"Oslo", 50).unwrap();
    let entries = t.drain_sorted();
    assert_eq!(entries.len(), 2);
    assert_eq!(entries[0].0, b"Bergen");
    assert_eq!(entries[0].1.count, 1);
    assert_eq!(entries[0].1.sum, -15);
    assert_eq!(entries[1].0, b"Oslo");
    assert_eq!(entries[1].1.min, 30);
    assert_eq!(entries[1].1.max, 50);
    assert_eq!(entries[1].1.count, 2);
}

#[test]
fn table_rejects_long_key() {
    let mut t = StationTable::new();
    let long = vec![b'x'; 101];
    assert_eq!(t.lookup_or_insert(&long, 1), Err(AggError::KeyTooLong));
}

#[test]
fn table_insert_order_does_not_change_drained_result() {
    let mut t1 = StationTable::new();
    t1.lookup_or_insert(b"a", 1).unwrap();
    t1.lookup_or_insert(b"b", 2).unwrap();
    t1.lookup_or_insert(b"a", 3).unwrap();
    let mut t2 = StationTable::new();
    t2.lookup_or_insert(b"a", 3).unwrap();
    t2.lookup_or_insert(b"a", 1).unwrap();
    t2.lookup_or_insert(b"b", 2).unwrap();
    let e1 = t1.drain_sorted();
    let e2 = t2.drain_sorted();
    assert_eq!(e1.len(), e2.len());
    for (x, y) in e1.iter().zip(e2.iter()) {
        assert_eq!(x.0, y.0);
        assert_eq!(x.1.min, y.1.min);
        assert_eq!(x.1.max, y.1.max);
        assert_eq!(x.1.sum, y.1.sum);
        assert_eq!(x.1.count, y.1.count);
    }
}

#[test]
fn hash_mixes_length() {
    // equal prefixes of different length land on different home slots
    assert_ne!(StationTable::hash(b"abc"), StationTable::hash(b"abcd"));
    assert!(StationTable::hash(b"some station name") < 65536);
}

#[test]
fn lex_lt_orders_bytes() {
    assert!(lex_lt(b"", b"a"));
    assert!(lex_lt(b"a", b"ab"));
    assert!(lex_lt(b"ab", b"b"));
    assert!(!lex_lt(b"b", b"ab"));
    assert!(!lex_lt(b"a", b"a"));
    assert!(lex_lt(b"A", b"a"));
}

#[test]
fn bytes_eq_compares_contents() {
    assert!(bytes_eq(b"abc", b"abc"));
    assert!(!bytes_eq(b"abc", b"abd"));
    assert!(!bytes_eq(b"abc", b"ab"));
    assert!(bytes_eq(b"", b""));
}
