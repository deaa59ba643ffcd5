use linkstreams::data::link::parse_line;
use linkstreams::data::link::push_decimal;
use linkstreams::data::link::Link;
use std::str::FromStr;

#[test]
fn link_to_string_writes_three_fields() {
    let link = Link { node1: 0, node2: 1, time: 10 };
    assert_eq!(link.to_string(), "0 1 10");
    let link = Link { node1: 120, node2: 7, time: 18446744073709551615 };
    assert_eq!(link.to_string(), "120 7 18446744073709551615");
}

#[test]
fn push_decimal_appends_the_digits() {
    let mut text = String::from("n=");
    push_decimal(&mut text, 0);
    push_decimal(&mut text, 907);
    push_decimal(&mut text, 10);
    assert_eq!(text, "n=090710");
}

#[test]
fn link_equality_is_structural() {
    let a = Link { node1: 0, node2: 1, time: 10 };
    let b = Link { node1: 0, node2: 1, time: 10 };
    let c = Link { node1: 1, node2: 0, time: 10 };
    assert!(a == b);
    assert!(a != c);
}

#[test]
fn link_from_str_reads_a_line() {
    assert_eq!(Link::from_str("0 1 10").unwrap(), Link { node1: 0, node2: 1, time: 10 });
    assert_eq!(Link::from_str("12 007 +5 and more").unwrap(), Link { node1: 12, node2: 7, time: 5 });
    assert_eq!(
        Link::from_str("3 4 18446744073709551615").unwrap(),
        Link { node1: 3, node2: 4, time: 18446744073709551615 }
    );
}

#[test]
fn link_from_str_reads_back_what_to_string_writes() {
    let link = Link { node1: 4019, node2: 0, time: 77 };
    assert_eq!(Link::from_str(&link.to_string()).unwrap(), link);
}

#[test]
fn link_from_str_refuses_other_lines() {
    assert!(Link::from_str("").is_err());
    assert!(Link::from_str("0 1").is_err());
    assert!(Link::from_str("0 1 ").is_err());
    assert!(Link::from_str("0  1 2").is_err());
    assert!(Link::from_str("a 1 2").is_err());
    assert!(Link::from_str("0 1 2x").is_err());
    assert!(Link::from_str("0 -1 2").is_err());
    assert!(Link::from_str("0 + 2").is_err());
    assert!(Link::from_str("0 1 18446744073709551616").is_err());
    assert!(Link::from_str("0\t1\t2").is_err());
}

#[test]
fn parse_line_works_on_bytes() {
    assert_eq!(parse_line(b"5 6 7").unwrap(), Link { node1: 5, node2: 6, time: 7 });
    assert!(parse_line(b"5 6").is_err());
}
