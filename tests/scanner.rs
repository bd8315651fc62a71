use cmdparse::scanner::{Scanner, Token};

fn expect_first_token(scanner: &mut Scanner, input: &str, expected: Token) {
    for c in input.as_bytes() {
        let res = scanner.scan_command(*c);

        if res.is_some() {
            assert_eq!(res.unwrap(), expected);
            return;
        }
    }

    panic!("Should yield at least one token!");
}

fn expect_scanned_string(scanner: &Scanner, expected: &str) {
    let scanned = scanner.scanned_string();
    let expected_slice = expected.as_bytes();
    for i in 0..expected_slice.len() {
        assert_eq!(scanned[i], expected_slice[i]);
    }
    assert_eq!(scanned[expected_slice.len()], b'\0');
}

fn first_number(input: &str) -> i32 {
    let mut scanner = Scanner::default();
    expect_first_token(&mut scanner, input, Token::Number);
    scanner.scanned_number()
}

#[test]
fn scan_binary_number() {
    let mut scanner = Scanner::default();
    expect_first_token(&mut scanner, "0b1010\r\n", Token::Number);
    assert_eq!(scanner.scanned_number(), 0b1010);
}

#[test]
fn scan_octal_number() {
    let mut scanner = Scanner::default();
    expect_first_token(&mut scanner, "0o755\r\n", Token::Number);
    assert_eq!(scanner.scanned_number(), 0o755);
}

#[test]
fn scan_hexadecimal_number() {
    let mut scanner = Scanner::default();
    expect_first_token(&mut scanner, "0x1234ABCD\r\n", Token::Number);
    assert_eq!(scanner.scanned_number(), 0x1234ABCD);
}

#[test]
fn scan_decimal_number_0() {
    let mut scanner = Scanner::default();
    expect_first_token(&mut scanner, "123\r\n", Token::Number);
    assert_eq!(scanner.scanned_number(), 123);
}

#[test]
fn scan_decimal_number_1() {
    let mut scanner = Scanner::default();
    expect_first_token(&mut scanner, "0109\r\n", Token::Number);
    assert_eq!(scanner.scanned_number(), 109);
}

#[test]
fn scan_decimal_number_2() {
    let mut scanner = Scanner::default();
    expect_first_token(&mut scanner, "0\r\n", Token::Number);
    assert_eq!(scanner.scanned_number(), 0);
}

#[test]
fn scan_decimal_number_3() {
    let mut scanner = Scanner::default();
    expect_first_token(&mut scanner, "3\r\n", Token::Number);
    assert_eq!(scanner.scanned_number(), 3);
}

#[test]
fn scan_decimal_number_4() {
    let mut scanner = Scanner::default();
    expect_first_token(&mut scanner, "-128\r\n", Token::Number);
    assert_eq!(scanner.scanned_number(), -128);
}

#[test]
fn scan_negative_number() {
    let mut scanner = Scanner::default();
    expect_first_token(&mut scanner, "-0x42\r\n", Token::Number);
    assert_eq!(scanner.scanned_number(), -0x42);
}

#[test]
fn scan_identifier_0() {
    let mut scanner = Scanner::default();
    expect_first_token(&mut scanner, "abcde\r\n", Token::Identifier);
    expect_scanned_string(&scanner, "abcde");
}

#[test]
fn scan_identifier_1() {
    let mut scanner = Scanner::default();
    expect_first_token(&mut scanner, "hoge_\r\n", Token::Identifier);
    expect_scanned_string(&scanner, "hoge_");
}

#[test]
fn scan_finish_0() {
    let mut scanner = Scanner::default();
    expect_first_token(&mut scanner, "\r\n\r\n", Token::Finish);
}

#[test]
fn scan_string_0() {
    let mut scanner = Scanner::default();
    expect_first_token(&mut scanner, "'Hello, world!'\r\n", Token::String);
    expect_scanned_string(&scanner, "Hello, world!");
}

#[test]
fn scan_string_1() {
    let mut scanner = Scanner::default();
    expect_first_token(&mut scanner, "'That\\'s Right!'\r\n", Token::String);
    expect_scanned_string(&scanner, "That's Right!");
}

#[test]
fn scan_radix_forms() {
    assert_eq!(first_number("0d0109 "), 109);
    assert_eq!(first_number("0x1a2B "), 0x1A2B);
    assert_eq!(first_number("-0b11 "), -3);
    assert_eq!(first_number("-0o17 "), -15);
    assert_eq!(first_number("2147483647 "), i32::MAX);
    assert_eq!(first_number("-2147483647 "), -i32::MAX);
}

#[test]
fn scan_number_overflow_is_invalid() {
    let mut scanner = Scanner::default();
    expect_first_token(&mut scanner, "2147483648 ", Token::Invalid);
    let mut scanner = Scanner::default();
    expect_first_token(&mut scanner, "0x100000000 ", Token::Invalid);
    let mut scanner = Scanner::default();
    expect_first_token(&mut scanner, "-2147483648 ", Token::Invalid);
}

#[test]
fn scan_buffer_overflow_is_invalid() {
    let mut scanner = Scanner::default();
    expect_first_token(&mut scanner, "abcdefghijklmno ", Token::Identifier);
    expect_scanned_string(&scanner, "abcdefghijklmno");
    let mut scanner = Scanner::default();
    expect_first_token(&mut scanner, "abcdefghijklmnop ", Token::Invalid);
    let mut scanner = Scanner::default();
    expect_first_token(&mut scanner, "'abcdefghijklmnop' ", Token::Invalid);
}

#[test]
fn scan_invalid_bytes() {
    let mut scanner = Scanner::default();
    expect_first_token(&mut scanner, "\r\r", Token::Invalid);
    let mut scanner = Scanner::default();
    expect_first_token(&mut scanner, "- 1", Token::Invalid);
    let mut scanner = Scanner::default();
    expect_first_token(&mut scanner, "0b102 ", Token::Invalid);
    let mut scanner = Scanner::default();
    expect_first_token(&mut scanner, "0o8", Token::Invalid);
    let mut scanner = Scanner::default();
    expect_first_token(&mut scanner, "ab-", Token::Invalid);
    let mut scanner = Scanner::default();
    expect_first_token(&mut scanner, "'a\tb'", Token::Invalid);
    let mut scanner = Scanner::default();
    expect_first_token(&mut scanner, "'ab'x", Token::Invalid);
    let mut scanner = Scanner::default();
    expect_first_token(&mut scanner, "#", Token::Invalid);
}

#[test]
fn scan_tokens_of_a_line() {
    let mut scanner = Scanner::default();
    let mut tokens = Vec::new();
    for c in "wb 0x10 -1\r\n".as_bytes() {
        if let Some(t) = scanner.scan_command(*c) {
            tokens.push(t);
        }
    }
    assert_eq!(tokens, vec![Token::Identifier, Token::Number, Token::Number, Token::Finish]);
    assert_eq!(scanner.scanned_number(), -1);
}

#[test]
fn scan_written_number_forms() {
    assert_eq!(first_number("0x00FFaa "), 0xFFAA);
    assert_eq!(first_number("-0d0042\r"), -42);
    assert_eq!(first_number("0b0000101 "), 5);
    assert_eq!(first_number("-0 "), 0);
    assert_eq!(first_number("000 "), 0);
}
