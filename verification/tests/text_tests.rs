use tictactoe_mcts::text::{append_decimal, parse_number};

const WORDS: [&str; 30] = [
    "0",
    "7",
    "42",
    "007",
    "+5",
    "+0",
    "+",
    "",
    "-3",
    "-0",
    "255",
    "256",
    "+255",
    "0000000000000000000000255",
    "4294967295",
    "4294967296",
    "+4294967295",
    "42949672950",
    "99999999999999999999",
    "1_0",
    " 1",
    "1 ",
    "0x10",
    "++1",
    "1+",
    "1.0",
    "\u{ff15}",
    "\u{663}",
    "12a",
    "a12",
];

#[test]
fn parse_number_reads_digits_with_or_without_a_plus() {
    assert_eq!(parse_number("0", 10), Some(0));
    assert_eq!(parse_number("10", 10), Some(10));
    assert_eq!(parse_number("+10", 10), Some(10));
    assert_eq!(parse_number("0010", 10), Some(10));
    assert_eq!(parse_number("4294967295", u32::MAX), Some(u32::MAX));
}

#[test]
fn parse_number_refuses_what_is_no_number_or_too_great() {
    assert_eq!(parse_number("11", 10), None);
    assert_eq!(parse_number("", 10), None);
    assert_eq!(parse_number("+", 10), None);
    assert_eq!(parse_number("-1", 10), None);
    assert_eq!(parse_number("1 ", 10), None);
    assert_eq!(parse_number("4294967296", u32::MAX), None);
    assert_eq!(parse_number("1", 0), None);
    assert_eq!(parse_number("0", 0), Some(0));
}

#[test]
fn parse_number_agrees_with_the_parser_of_the_standard_library() {
    for word in WORDS.iter() {
        assert_eq!(parse_number(word, u32::MAX), word.parse::<u32>().ok());
        assert_eq!(parse_number(word, 255).map(|value| value as u8), word.parse::<u8>().ok());
        assert_eq!(parse_number(word, 65535).map(|value| value as u16), word.parse::<u16>().ok());
    }
}

#[test]
fn parse_number_reads_back_what_append_decimal_wrote() {
    for number in [0usize, 1, 9, 10, 99, 100, 12345, 4294967295] {
        let mut text = String::new();
        append_decimal(&mut text, number);
        assert_eq!(text, number.to_string());
        assert_eq!(parse_number(&text, u32::MAX), Some(number as u32));
    }
}
