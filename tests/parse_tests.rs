use hexpoke::parse::{hex_digit_value, parse_hex};

fn bytes(input: &str) -> Vec<u8> {
    match parse_hex(input) {
        Ok(v) => v,
        Err(e) => panic!("unexpected invalid token {:?}", e.token),
    }
}

fn bad_token(input: &str) -> String {
    match parse_hex(input) {
        Ok(v) => panic!("unexpected success {:?}", v),
        Err(e) => e.token,
    }
}

#[test]
fn parses_two_digit_tokens_in_order() {
    assert_eq!(bytes("1f 8b 08"), vec![0x1f, 0x8b, 0x08]);
}

#[test]
fn parses_uppercase_digits() {
    assert_eq!(bytes("1F 8B 0a Ff"), vec![0x1f, 0x8b, 0x0a, 0xff]);
}

#[test]
fn splits_on_runs_of_ascii_whitespace() {
    assert_eq!(bytes("  0a\t\t0b\n\r0c \x0c 0d  "), vec![0x0a, 0x0b, 0x0c, 0x0d]);
}

#[test]
fn accepts_short_and_zero_padded_tokens() {
    assert_eq!(bytes("a 0 00ff +7"), vec![0x0a, 0x00, 0xff, 0x07]);
}

#[test]
fn empty_input_gives_no_bytes() {
    assert_eq!(bytes(""), Vec::<u8>::new());
}

#[test]
fn blank_input_gives_no_bytes() {
    assert_eq!(bytes(" \t\n  \r "), Vec::<u8>::new());
}

#[test]
fn reports_invalid_token() {
    assert_eq!(bad_token("1f zz 08"), "zz");
}

#[test]
fn reports_first_invalid_token_only() {
    assert_eq!(bad_token("00 g1 100 zz"), "g1");
}

#[test]
fn rejects_values_over_a_byte() {
    assert_eq!(bad_token("ff 100"), "100");
    assert_eq!(bad_token("fff"), "fff");
    assert_eq!(bad_token("0x1f"), "0x1f");
}

#[test]
fn rejects_signs_without_digits_and_minus() {
    assert_eq!(bad_token("+"), "+");
    assert_eq!(bad_token("-1"), "-1");
    assert_eq!(bad_token("++1"), "++1");
}

#[test]
fn rejects_non_ascii_token() {
    assert_eq!(bad_token("01 \u{e9}f"), "\u{e9}f");
}

#[test]
fn last_token_is_checked() {
    assert_eq!(bad_token("01 02 zz"), "zz");
}

#[test]
fn digit_values() {
    assert_eq!(hex_digit_value('0'), Some(0));
    assert_eq!(hex_digit_value('9'), Some(9));
    assert_eq!(hex_digit_value('a'), Some(10));
    assert_eq!(hex_digit_value('F'), Some(15));
    assert_eq!(hex_digit_value('g'), None);
}
