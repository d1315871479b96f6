use channel_ledger::token_id::{chars_of, parse_number, parse_token_id, push_decimal, token_id};

#[test]
fn token_id_is_channel_colon_number() {
    assert_eq!(token_id("drop1", 1), "drop1:1");
    assert_eq!(token_id("drop1", 0), "drop1:0");
    assert_eq!(token_id("drop1", 10), "drop1:10");
    assert_eq!(token_id("drop1", 1234567890), "drop1:1234567890");
    assert_eq!(token_id("", 7), ":7");
    assert_eq!(token_id("a:b", 7), "a:b:7");
    assert_eq!(token_id("canal é", 42), "canal é:42");
    assert_eq!(token_id("c", u64::MAX), "c:18446744073709551615");
}

#[test]
fn decimal_has_no_leading_zeros() {
    for n in [0u64, 1, 9, 10, 11, 99, 100, 101, 1000, 909, u64::MAX - 1, u64::MAX] {
        let mut out = String::from("x");
        push_decimal(&mut out, n);
        assert_eq!(out, format!("x{}", n));
    }
}

#[test]
fn parse_reads_what_token_id_writes() {
    for channel in ["drop1", "", "canal é", "a b"] {
        for n in [0u64, 1, 5, 10, 4711, u64::MAX] {
            let id = token_id(channel, n);
            assert_eq!(parse_token_id(&id), Some((channel.to_string(), n)));
        }
    }
}

#[test]
fn parse_accepts_exactly_two_parts() {
    assert_eq!(parse_token_id("drop1:12"), Some(("drop1".to_string(), 12)));
    assert_eq!(parse_token_id(":12"), Some(("".to_string(), 12)));
    assert_eq!(parse_token_id("drop1:+12"), Some(("drop1".to_string(), 12)));
    assert_eq!(parse_token_id("drop1:0012"), Some(("drop1".to_string(), 12)));
    assert_eq!(parse_token_id("drop1:0"), Some(("drop1".to_string(), 0)));
    assert_eq!(
        parse_token_id("drop1:18446744073709551615"),
        Some(("drop1".to_string(), u64::MAX))
    );
    assert_eq!(
        parse_token_id("drop1:00018446744073709551615"),
        Some(("drop1".to_string(), u64::MAX))
    );
    for bad in [
        "",
        "drop1",
        "drop1:",
        ":",
        "drop1:+",
        "drop1:-1",
        "drop1:1:2",
        "a:b:1",
        "drop1::1",
        "drop1:1:",
        "drop1: 1",
        "drop1:1 ",
        "drop1:1x",
        "drop1:x",
        "drop1:++1",
        "drop1:1+",
        "drop1:١",
        "drop1:18446744073709551616",
        "drop1:99999999999999999999999",
    ] {
        assert_eq!(parse_token_id(bad), None, "{:?}", bad);
    }
}

#[test]
fn parse_agrees_with_the_standard_integer_parser() {
    for text in ["0", "7", "+7", "007", "", "+", "-", "-7", "7a", " 7", "18446744073709551615",
        "18446744073709551616", "+18446744073709551615", "1844674407370955161500"]
    {
        let chars: Vec<char> = text.chars().collect();
        assert_eq!(parse_number(&chars, 0), text.parse::<u64>().ok(), "{:?}", text);
    }
}

#[test]
fn parse_number_starts_where_it_is_told() {
    let chars: Vec<char> = "ab:42".chars().collect();
    assert_eq!(parse_number(&chars, 3), Some(42));
    assert_eq!(parse_number(&chars, 4), Some(2));
    assert_eq!(parse_number(&chars, 5), None);
    assert_eq!(parse_number(&chars, 2), None);
}

#[test]
fn chars_of_lists_the_characters() {
    assert_eq!(chars_of("a:é1"), vec!['a', ':', 'é', '1']);
    assert_eq!(chars_of(""), Vec::<char>::new());
}
