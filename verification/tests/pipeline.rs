use collatz_core::big::Big;
use collatz_core::parse::{parse, ParseError};
use collatz_core::sequence::{collatz_step, generate};
use collatz_core::stats::{collect, Parity};

fn big(n: u64) -> Big {
    Big::from_u64(n)
}

fn dec(b: &Big) -> String {
    String::from_utf8(b.to_decimal()).unwrap()
}

fn lines_of(texts: &[&str]) -> Vec<Vec<u8>> {
    let mut v: Vec<Vec<u8>> = Vec::new();
    for t in texts {
        v.push(t.as_bytes().to_vec());
    }
    v
}

fn persisted(seq: &[Big]) -> Vec<Vec<u8>> {
    let mut v: Vec<Vec<u8>> = Vec::new();
    for b in seq {
        v.push(b.to_decimal());
    }
    v
}

#[test]
fn parse_plain_decimal() {
    assert_eq!(parse(b"27"), Ok(big(27)));
}

#[test]
fn parse_trims_whitespace() {
    assert_eq!(parse(b" 27\n"), Ok(big(27)));
}

#[test]
fn parse_power() {
    assert_eq!(parse(b"2^10"), Ok(big(1024)));
}

#[test]
fn parse_power_with_subtract() {
    assert_eq!(parse(b"2^10-1"), Ok(big(1023)));
}

#[test]
fn parse_power_zero_exponent() {
    assert_eq!(parse(b"7^0"), Ok(big(1)));
}

#[test]
fn parse_rejects_zero() {
    assert_eq!(parse(b"0"), Err(ParseError::InvalidInput));
}

#[test]
fn parse_rejects_negative() {
    assert_eq!(parse(b"-5"), Err(ParseError::InvalidInput));
}

#[test]
fn parse_rejects_letters() {
    assert_eq!(parse(b"abc"), Err(ParseError::InvalidInput));
}

#[test]
fn parse_rejects_negative_power_result() {
    assert_eq!(parse(b"2^10-2000"), Err(ParseError::InvalidInput));
}

#[test]
fn parse_rejects_power_result_zero() {
    assert_eq!(parse(b"2^10-1024"), Err(ParseError::InvalidInput));
}

#[test]
fn parse_rejects_empty() {
    assert_eq!(parse(b"  "), Err(ParseError::InvalidInput));
}

#[test]
fn parse_rejects_malformed_power() {
    assert_eq!(parse(b"2^"), Err(ParseError::InvalidInput));
    assert_eq!(parse(b"^3"), Err(ParseError::InvalidInput));
    assert_eq!(parse(b"2^3-"), Err(ParseError::InvalidInput));
}

#[test]
fn parse_huge_power_exact() {
    let v = parse(b"2^64").unwrap();
    assert_eq!(dec(&v), "18446744073709551616");
    let w = parse(b"2^64-1").unwrap();
    assert_eq!(dec(&w), "18446744073709551615");
}

#[test]
fn decimal_rendering() {
    assert_eq!(dec(&Big::zero()), "0");
    assert_eq!(dec(&big(1024)), "1024");
}

#[test]
fn step_halves_even() {
    assert_eq!(collatz_step(&big(10)), big(5));
}

#[test]
fn step_triples_odd() {
    assert_eq!(collatz_step(&big(7)), big(22));
}

#[test]
fn generate_from_six() {
    let seq = generate(&big(6));
    let expected = vec![big(3), big(10), big(5), big(16), big(8), big(4), big(2), big(1)];
    assert_eq!(seq, expected);
}

#[test]
fn generate_from_one_is_empty() {
    assert_eq!(generate(&big(1)), Vec::<Big>::new());
}

#[test]
fn generate_first_element_even_start() {
    assert_eq!(generate(&big(10))[0], big(5));
}

#[test]
fn generate_first_element_odd_start() {
    assert_eq!(generate(&big(7))[0], big(22));
}

#[test]
fn generate_ends_in_one() {
    let seq = generate(&big(27));
    assert_eq!(seq.len(), 111);
    assert_eq!(seq[seq.len() - 1], big(1));
}

#[test]
fn collect_empty_source() {
    let r = collect(&Vec::new());
    assert_eq!(r.record.stopping_time, 0);
    assert_eq!(r.record.even_count, 0);
    assert_eq!(r.record.odd_count, 0);
    assert_eq!(r.record.max_value, Big::zero());
    assert_eq!(r.record.max_position, 0);
    assert!(r.outcomes.is_empty());
}

#[test]
fn collect_max_tie_keeps_first() {
    let r = collect(&lines_of(&["5", "9", "9", "3"]));
    assert_eq!(r.record.max_value, big(9));
    assert_eq!(r.record.max_position, 2);
    assert_eq!(r.record.stopping_time, 4);
    assert_eq!(r.record.odd_count, 4);
    assert_eq!(r.record.even_count, 0);
}

#[test]
fn collect_tolerates_malformed_line() {
    let r = collect(&lines_of(&["5", "xx", "9"]));
    assert_eq!(r.outcomes.len(), 3);
    assert!(r.outcomes[0].is_some());
    assert!(r.outcomes[1].is_none());
    assert!(r.outcomes[2].is_some());
    assert_eq!(r.record.even_count + r.record.odd_count, 2);
    assert_eq!(r.record.stopping_time, 3);
    assert_eq!(r.record.max_value, big(9));
    assert_eq!(r.record.max_position, 3);
}

#[test]
fn collect_reports_parity() {
    let r = collect(&lines_of(&["3", "10"]));
    let first = r.outcomes[0].as_ref().unwrap();
    assert_eq!(first.0, big(3));
    assert_eq!(first.1, Parity::Odd);
    let second = r.outcomes[1].as_ref().unwrap();
    assert_eq!(second.0, big(10));
    assert_eq!(second.1, Parity::Even);
}

#[test]
fn end_to_end_from_six() {
    let start = parse(b"6").unwrap();
    let seq = generate(&start);
    assert_eq!(seq.len(), 8);
    let r = collect(&persisted(&seq));
    assert_eq!(r.record.stopping_time, 8);
    assert_eq!(r.record.even_count, 5);
    assert_eq!(r.record.odd_count, 3);
    assert_eq!(r.record.max_value, big(16));
    assert_eq!(r.record.max_position, 4);
}

#[test]
fn round_trip_counts_every_line() {
    let seq = generate(&big(27));
    let r = collect(&persisted(&seq));
    assert_eq!(r.record.stopping_time, seq.len());
    assert_eq!(r.record.even_count + r.record.odd_count, seq.len());
}

#[test]
fn parse_rejects_oversized_exponent() {
    assert_eq!(parse(b"2^4294967296"), Err(ParseError::InvalidInput));
}

#[test]
fn parse_power_with_zero_subtract() {
    assert_eq!(parse(b"2^10-0"), Ok(big(1024)));
}
