use station_stats::aggregate::Aggregate;
use station_stats::chunk::{parse_chunk, ParseError};
use station_stats::partition::{next_line_end, plan, PartitionRange};
use station_stats::report::render;
use station_stats::schedule::{aggregate, run};
use station_stats::summarize;
use station_stats::value::parse_value;

fn report(input: &str, parts: usize) -> Result<String, ParseError> {
    summarize(input.as_bytes(), parts).map(|b| String::from_utf8(b).unwrap())
}

#[test]
fn two_cities() {
    let input = "Paris;10.0\nParis;20.0\nOslo;5.5\n";
    for parts in [1, 2, 3, 8] {
        assert_eq!(report(input, parts).unwrap(), "{Oslo=5.5/5.5/5.5, Paris=10.0/15.0/20.0}");
    }
}

#[test]
fn empty_input() {
    assert_eq!(report("", 1).unwrap(), "{}");
    assert_eq!(report("", 8).unwrap(), "{}");
}

#[test]
fn line_without_separator_is_dropped() {
    assert_eq!(report("garbage\n", 1).unwrap(), "{}");
    assert_eq!(report("garbage\nA;1.0\nmore", 4).unwrap(), "{A=1.0/1.0/1.0}");
}

#[test]
fn negative_and_fractional_round_half_away_from_zero() {
    assert_eq!(report("A;-3.25\nA;1.05\n", 1).unwrap(), "{A=-3.3/-1.1/1.1}");
}

#[test]
fn fewer_lines_than_workers() {
    let input = "B;1.5\nA;2.5\n";
    assert_eq!(report(input, 8).unwrap(), report(input, 1).unwrap());
    assert_eq!(report(input, 8).unwrap(), "{A=2.5/2.5/2.5, B=1.5/1.5/1.5}");
}

#[test]
fn invalid_value_aborts() {
    assert_eq!(report("A;oops\n", 1), Err(ParseError::InvalidValue));
    assert_eq!(report("A;1.0\nB;\n", 2), Err(ParseError::InvalidValue));
}

#[test]
fn partition_count_does_not_change_output() {
    let mut input = String::new();
    for i in 0..200 {
        input.push_str(&format!("k{};{}.{}\n", i % 7, (i * 37) % 101 - 50, i % 10));
    }
    let one = report(&input, 1).unwrap();
    for parts in [2, 8, 13, 200, 1000] {
        assert_eq!(report(&input, parts).unwrap(), one);
    }
}

#[test]
fn last_line_without_terminator() {
    assert_eq!(report("A;1.0\nA;3.0", 2).unwrap(), "{A=1.0/2.0/3.0}");
}

#[test]
fn keys_are_trimmed_and_byte_ordered() {
    assert_eq!(report(" b ;1\na;2\nB;3\n", 1).unwrap(), "{B=3.0/3.0/3.0, a=2.0/2.0/2.0, b=1.0/1.0/1.0}");
}

#[test]
fn rounding_near_zero_and_halves() {
    assert_eq!(report("A;-0.04\n", 1).unwrap(), "{A=0.0/0.0/0.0}");
    assert_eq!(report("A;0.05\n", 1).unwrap(), "{A=0.1/0.1/0.1}");
    assert_eq!(report("A;-0.05\n", 1).unwrap(), "{A=-0.1/-0.1/-0.1}");
    assert_eq!(report("A;1\nA;2\n", 1).unwrap(), "{A=1.0/1.5/2.0}");
    assert_eq!(report("A;0.1\nA;0.1\nA;0.2\n", 1).unwrap(), "{A=0.1/0.1/0.2}");
}

#[test]
fn parse_value_forms() {
    assert_eq!(parse_value(b"12.5"), Some(12_500_000));
    assert_eq!(parse_value(b"-0.5"), Some(-500_000));
    assert_eq!(parse_value(b"+3"), Some(3_000_000));
    assert_eq!(parse_value(b".25"), Some(250_000));
    assert_eq!(parse_value(b"7."), Some(7_000_000));
    assert_eq!(parse_value(b"0.000001"), Some(1));
    assert_eq!(parse_value(b"999999999999.999999"), Some(999_999_999_999_999_999));
    assert_eq!(parse_value(b""), None);
    assert_eq!(parse_value(b"-"), None);
    assert_eq!(parse_value(b"."), None);
    assert_eq!(parse_value(b"1.2345678"), None);
    assert_eq!(parse_value(b"1234567890123"), None);
    assert_eq!(parse_value(b"1e5"), None);
    assert_eq!(parse_value(b"1.2.3"), None);
    assert_eq!(parse_value(b" 1"), None);
}

#[test]
fn line_end_search() {
    let buf = b"ab\ncd\n";
    assert_eq!(next_line_end(buf, 0, 6), 2);
    assert_eq!(next_line_end(buf, 2, 6), 2);
    assert_eq!(next_line_end(buf, 3, 6), 5);
    assert_eq!(next_line_end(buf, 3, 4), 4);
}

fn rejoin(buf: &[u8], ranges: &[PartitionRange]) -> Vec<u8> {
    let mut out = Vec::new();
    for (i, r) in ranges.iter().enumerate() {
        if i > 0 {
            out.push(b'\n');
        }
        out.extend_from_slice(&buf[r.start..r.end]);
    }
    out
}

#[test]
fn plan_rebuilds_buffer() {
    let buf = b"Paris;10.0\nParis;20.0\nOslo;5.5\n\n\nA;1\n";
    for parts in 1..20 {
        let ranges = plan(buf, parts);
        assert!(ranges.len() <= parts);
        assert!(ranges.iter().all(|r| r.start < r.end));
        assert_eq!(rejoin(buf, &ranges), buf.to_vec());
    }
    assert!(plan(b"", 4).is_empty());
    assert_eq!(plan(buf, 1), vec![PartitionRange { start: 0, end: buf.len() }]);
}

#[test]
fn plan_cuts_after_terminators() {
    let buf = b"aa;1\nbb;2\ncc;3\ndd;4\n";
    let ranges = plan(buf, 2);
    assert_eq!(ranges, vec![PartitionRange { start: 0, end: 14 }, PartitionRange { start: 15, end: 20 }]);
}

#[test]
fn aggregate_merge_laws() {
    let mut a = Aggregate::new();
    a.update(5);
    a.update(-2);
    let mut b = Aggregate::new();
    b.update(7);
    let mut c = Aggregate::new();
    c.update(-9);
    c.update(1);
    let fields = |x: &Aggregate| (x.min, x.max, x.sum, x.count);

    let mut ab = a;
    ab.merge(&b);
    let mut ba = b;
    ba.merge(&a);
    assert_eq!(fields(&ab), fields(&ba));

    let mut ab_c = ab;
    ab_c.merge(&c);
    let mut bc = b;
    bc.merge(&c);
    let mut a_bc = a;
    a_bc.merge(&bc);
    assert_eq!(fields(&ab_c), fields(&a_bc));
    assert_eq!(fields(&ab_c), (-9, 7, 2, 5));

    let mut e = Aggregate::new();
    e.merge(&a);
    assert_eq!(fields(&e), fields(&a));
    let mut a2 = a;
    a2.merge(&Aggregate::new());
    assert_eq!(fields(&a2), fields(&a));
}

#[test]
fn aggregate_update_first_value() {
    let mut a = Aggregate::new();
    a.update(-4);
    assert_eq!((a.min, a.max, a.sum, a.count), (-4, -4, -4, 1));
}

#[test]
fn min_max_mean_match_values() {
    let t = aggregate(b"X;3.5\nX;-1.5\nY;2\nX;10\n", 3).unwrap();
    let x = t.lookup(b"X").unwrap();
    assert_eq!((x.min, x.max, x.sum, x.count), (-1_500_000, 10_000_000, 12_000_000, 3));
    assert!(t.lookup(b"Z").is_none());
}

#[test]
fn rendering_is_repeatable() {
    let t = aggregate(b"c;1\nb;2\na;3\nb;4\n", 2).unwrap();
    let first = render(&t);
    let second = render(&t);
    assert_eq!(first, second);
    assert_eq!(String::from_utf8(first).unwrap(), "{a=3.0/3.0/3.0, b=2.0/3.0/4.0, c=1.0/1.0/1.0}");
}

#[test]
fn chunk_parsing() {
    let buf = b"A;1\nB;2\nA;oops\n";
    let t = parse_chunk(buf, 0, 8).unwrap();
    assert_eq!(t.lookup(b"A").unwrap().count, 1);
    assert_eq!(t.lookup(b"B").unwrap().sum, 2_000_000);
    assert!(parse_chunk(buf, 8, buf.len()).is_err());
}

#[test]
fn run_over_given_ranges() {
    let buf = b"A;1\nA;2\nB;3";
    let ranges = vec![PartitionRange { start: 0, end: 3 }, PartitionRange { start: 4, end: 11 }];
    let t = run(buf, &ranges).unwrap();
    let a = t.lookup(b"A").unwrap();
    assert_eq!((a.min, a.max, a.count), (1_000_000, 2_000_000, 2));
}
