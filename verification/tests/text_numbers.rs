use wikidata_index::sorting::{sort_u64, text_order_of};
use wikidata_index::text::{parse_u64, text_eq, text_order, u64_to_string, TextOrder};

#[test]
fn parse_u64_reads_plain_numbers() {
    assert_eq!(parse_u64("0"), Some(0));
    assert_eq!(parse_u64("42"), Some(42));
    assert_eq!(parse_u64("+7"), Some(7));
    assert_eq!(parse_u64("18446744073709551615"), Some(u64::MAX));
}

#[test]
fn parse_u64_refuses_what_from_str_refuses() {
    assert_eq!(parse_u64(""), None);
    assert_eq!(parse_u64("+"), None);
    assert_eq!(parse_u64("-1"), None);
    assert_eq!(parse_u64("12a"), None);
    assert_eq!(parse_u64(" 12"), None);
    assert_eq!(parse_u64("18446744073709551616"), None);
}

#[test]
fn parse_u64_agrees_with_std() {
    for s in ["0", "9", "10", "007", "+0", "123456789", "99999999999999999999", "x", "1.5"] {
        assert_eq!(parse_u64(s), s.parse::<u64>().ok(), "{}", s);
    }
}

#[test]
fn u64_to_string_writes_decimal() {
    assert_eq!(u64_to_string(0), "0");
    assert_eq!(u64_to_string(7), "7");
    assert_eq!(u64_to_string(4200), "4200");
    assert_eq!(u64_to_string(u64::MAX), "18446744073709551615");
}

#[test]
fn decimal_round_trip_on_values() {
    for n in [0u64, 1, 9, 10, 11, 99, 100, 65535, 1 << 40, u64::MAX - 1, u64::MAX] {
        assert_eq!(parse_u64(&u64_to_string(n)), Some(n));
    }
}

#[test]
fn text_order_is_byte_order() {
    assert_eq!(text_order("a", "b"), TextOrder::Less);
    assert_eq!(text_order("b", "a"), TextOrder::Greater);
    assert_eq!(text_order("abc", "abc"), TextOrder::Equal);
    assert_eq!(text_order("ab", "abc"), TextOrder::Less);
    assert_eq!(text_order("", "a"), TextOrder::Less);
    assert_eq!(text_order("Z", "a"), TextOrder::Less);
    assert_eq!(text_order("é", "z"), TextOrder::Greater);
    assert!(text_eq("ダグラス", "ダグラス"));
    assert!(!text_eq("ダグラス", "ダグラ"));
}

#[test]
fn text_order_of_sorts_positions_by_text() {
    let keys: Vec<String> = vec!["pear".to_string(), "apple".to_string(), "fig".to_string(), "".to_string()];
    assert_eq!(text_order_of(&keys), vec![3, 1, 2, 0]);
    let empty: Vec<String> = Vec::new();
    assert_eq!(text_order_of(&empty), Vec::<usize>::new());
}

#[test]
fn sort_u64_sorts_and_keeps_duplicates() {
    assert_eq!(sort_u64(&vec![3, 1, 2, 1]), vec![1, 1, 2, 3]);
    assert_eq!(sort_u64(&vec![]), Vec::<u64>::new());
    assert_eq!(sort_u64(&vec![u64::MAX, 0]), vec![0, u64::MAX]);
}
