use hashcash::digest::{count_proven_bits, leading_zero_bits};
use hashcash::escape::{decode_escaped, push_escaped};
use hashcash::fields::{push_bytes, split_fields};
use hashcash::numeral::{parse_decimal, push_decimal};
use hashcash::token::{advance_counter, is_symbol_byte, is_token_bytes};

fn decimal(n: u64) -> String {
    let mut out = Vec::new();
    push_decimal(&mut out, n);
    String::from_utf8(out).unwrap()
}

fn escaped(bytes: &[u8]) -> String {
    let mut out = Vec::new();
    push_escaped(&mut out, bytes);
    String::from_utf8(out).unwrap()
}

fn successor(text: &str) -> String {
    let mut counter = text.as_bytes().to_vec();
    advance_counter(&mut counter);
    String::from_utf8(counter).unwrap()
}

#[test]
fn leading_zero_bits_counts_from_the_most_significant_bit() {
    assert_eq!(leading_zero_bits(&[]), 0);
    assert_eq!(leading_zero_bits(&[0x80]), 0);
    assert_eq!(leading_zero_bits(&[0x7f]), 1);
    assert_eq!(leading_zero_bits(&[0x01]), 7);
    assert_eq!(leading_zero_bits(&[0x00]), 8);
    assert_eq!(leading_zero_bits(&[0x00, 0x00]), 16);
    assert_eq!(leading_zero_bits(&[0x00, 0x00, 0x0f, 0x00]), 20);
    assert_eq!(leading_zero_bits(&[0x00, 0x00, 0x06, 0xdd]), 21);
    assert_eq!(leading_zero_bits(&[0x00, 0x40, 0x00]), 9);
}

#[test]
fn leading_zero_bits_stops_at_the_first_set_bit() {
    assert_eq!(leading_zero_bits(&[0x10, 0x00, 0x00]), 3);
    assert_eq!(leading_zero_bits(&[0xff, 0x00]), 0);
    assert_eq!(leading_zero_bits(&[0u8; 20]), 160);
}

#[test]
fn proven_bits_are_those_of_the_sha1_digest() {
    // SHA-1("abc") = a9993e36..., SHA-1("") = da39a3ee...
    assert_eq!(count_proven_bits(b"abc"), 0);
    assert_eq!(count_proven_bits(b""), 0);
    // SHA-1 = 000006ddf81fe25fc4c784dc0ad92d3965dc73ac
    assert_eq!(
        count_proven_bits(b"1:20:1700000000:alice@example.com::Salt000000000007:IgZ"),
        21
    );
    // SHA-1 = 00000a4a8bd07bddbdb0c4ea9ddb2d29b8d1cc5e
    assert_eq!(
        count_proven_bits(b"1:20:060408:adam@cypherspace.org::1QTjaYd7niiQA/sc:ePa"),
        20
    );
    // SHA-1 = 1b018f52...
    assert_eq!(
        count_proven_bits(b"1:20:1303030600:anni@cypherspace.org::McMybZIhxKXu57jd:ckvi"),
        3
    );
}

#[test]
fn decimal_numerals_are_written_without_padding() {
    assert_eq!(decimal(0), "0");
    assert_eq!(decimal(7), "7");
    assert_eq!(decimal(10), "10");
    assert_eq!(decimal(12345), "12345");
    assert_eq!(decimal(1700000000), "1700000000");
    assert_eq!(decimal(u64::MAX), "18446744073709551615");
}

#[test]
fn push_decimal_appends_to_what_is_there() {
    let mut out = b"1:".to_vec();
    push_decimal(&mut out, 20);
    assert_eq!(out, b"1:20".to_vec());
}

#[test]
fn parse_decimal_reads_canonical_numerals() {
    assert_eq!(parse_decimal(b"0"), Some(0));
    assert_eq!(parse_decimal(b"7"), Some(7));
    assert_eq!(parse_decimal(b"20"), Some(20));
    assert_eq!(parse_decimal(b"1700000000"), Some(1700000000));
    assert_eq!(parse_decimal(b"18446744073709551615"), Some(u64::MAX));
}

#[test]
fn parse_decimal_refuses_everything_else() {
    assert_eq!(parse_decimal(b""), None);
    assert_eq!(parse_decimal(b"007"), None);
    assert_eq!(parse_decimal(b"00"), None);
    assert_eq!(parse_decimal(b"1a"), None);
    assert_eq!(parse_decimal(b"-1"), None);
    assert_eq!(parse_decimal(b"+1"), None);
    assert_eq!(parse_decimal(b" 1"), None);
    assert_eq!(parse_decimal(b"18446744073709551616"), None);
    assert_eq!(parse_decimal(b"99999999999999999999"), None);
    assert_eq!(parse_decimal(b"184467440737095516150"), None);
}

#[test]
fn decimal_round_trip() {
    for n in [0u64, 1, 9, 10, 99, 100, 65535, 4294967295, 4294967296, u64::MAX - 1, u64::MAX] {
        assert_eq!(parse_decimal(decimal(n).as_bytes()), Some(n));
    }
}

#[test]
fn escaping_keeps_plain_bytes_and_writes_the_rest_in_hex() {
    assert_eq!(escaped(b""), "");
    assert_eq!(escaped(b"alice@example.com"), "alice@example.com");
    assert_eq!(escaped(b"a:b%c d\n\xff"), "a%3Ab%25c%20d%0A%FF");
    assert_eq!(escaped(b"https://example.com/"), "https%3A//example.com/");
    assert_eq!(escaped(&[0, 127, 128, 32, 33, 126]), "%00%7F%80%20!~");
}

#[test]
fn decode_escaped_reads_what_escaping_writes() {
    assert_eq!(decode_escaped(b""), Some(Vec::new()));
    assert_eq!(decode_escaped(b"alice@example.com"), Some(b"alice@example.com".to_vec()));
    assert_eq!(decode_escaped(b"a%3Ab%25c%20d%0A%FF"), Some(b"a:b%c d\n\xff".to_vec()));
    let all: Vec<u8> = (0..=255u8).collect();
    assert_eq!(decode_escaped(escaped(&all).as_bytes()), Some(all));
}

#[test]
fn decode_escaped_refuses_forms_that_escaping_never_writes() {
    // an escape of a byte that stands for itself
    assert_eq!(decode_escaped(b"%41"), None);
    // lower-case hexadecimal digits
    assert_eq!(decode_escaped(b"%3a"), None);
    // escapes that are cut off or hold no hexadecimal digits
    assert_eq!(decode_escaped(b"%"), None);
    assert_eq!(decode_escaped(b"%3"), None);
    assert_eq!(decode_escaped(b"ab%"), None);
    assert_eq!(decode_escaped(b"%G0"), None);
    assert_eq!(decode_escaped(b"%0G"), None);
    // bytes that must be escaped
    assert_eq!(decode_escaped(b"a:b"), None);
    assert_eq!(decode_escaped(b"a b"), None);
    assert_eq!(decode_escaped(b"a\nb"), None);
    assert_eq!(decode_escaped(&[0x80]), None);
    assert_eq!(decode_escaped(&[0x7f]), None);
}

#[test]
fn the_token_alphabet_has_64_symbols() {
    let symbols = (0..=255u8).filter(|c| is_symbol_byte(*c)).count();
    assert_eq!(symbols, 64);
    for c in b"ABCDEFGHIJKLMNOPQRSTUVWXYZabcdefghijklmnopqrstuvwxyz0123456789+/" {
        assert!(is_symbol_byte(*c));
    }
    assert!(!is_symbol_byte(b'='));
    assert!(!is_symbol_byte(b':'));
    assert!(!is_symbol_byte(b'%'));
}

#[test]
fn tokens_are_strings_of_symbols() {
    assert!(is_token_bytes(b""));
    assert!(is_token_bytes(b"McMybZIhxKXu57jd"));
    assert!(is_token_bytes(b"1QTjaYd7niiQA/sc"));
    assert!(is_token_bytes(b"+/+/"));
    assert!(!is_token_bytes(b"abc="));
    assert!(!is_token_bytes(b"a b"));
    assert!(!is_token_bytes(b"a:b"));
    assert!(!is_token_bytes(&[b'a', 0xff]));
}

#[test]
fn counters_count_in_base_64() {
    assert_eq!(successor("A"), "B");
    assert_eq!(successor("Y"), "Z");
    assert_eq!(successor("Z"), "a");
    assert_eq!(successor("z"), "0");
    assert_eq!(successor("9"), "+");
    assert_eq!(successor("+"), "/");
    assert_eq!(successor("/"), "BA");
    assert_eq!(successor("BA"), "BB");
    assert_eq!(successor("B/"), "CA");
    assert_eq!(successor("//"), "BAA");
    assert_eq!(successor("Bb"), "Bc");
    assert_eq!(successor("IgY"), "IgZ");
    assert_eq!(successor("A//"), "BAA");
}

#[test]
fn advance_counter_moves_any_last_byte_on() {
    let mut bytes = vec![b'A', b'='];
    advance_counter(&mut bytes);
    assert_eq!(bytes, vec![b'A', b'>']);
    let mut bytes = vec![255u8];
    advance_counter(&mut bytes);
    assert_eq!(bytes, vec![0u8]);
    let mut bytes: Vec<u8> = Vec::new();
    advance_counter(&mut bytes);
    assert_eq!(bytes, b"B".to_vec());
}

#[test]
fn counter_reaches_its_number_after_that_many_steps() {
    let mut counter = b"A".to_vec();
    for _ in 0..34841 {
        advance_counter(&mut counter);
    }
    assert_eq!(counter, b"IgZ".to_vec());
    let mut counter = b"A".to_vec();
    for _ in 0..4096 {
        advance_counter(&mut counter);
    }
    assert_eq!(counter, b"BAA".to_vec());
}

#[test]
fn split_fields_cuts_at_every_separator() {
    let text = |fields: Vec<Vec<u8>>| -> Vec<String> {
        fields.into_iter().map(|f| String::from_utf8(f).unwrap()).collect()
    };
    assert_eq!(text(split_fields(b"")), vec![""]);
    assert_eq!(text(split_fields(b"abc")), vec!["abc"]);
    assert_eq!(text(split_fields(b":")), vec!["", ""]);
    assert_eq!(text(split_fields(b"a:b::c")), vec!["a", "b", "", "c"]);
    assert_eq!(text(split_fields(b"a:b:")), vec!["a", "b", ""]);
    assert_eq!(
        text(split_fields(b"1:20:1700000000:alice@example.com::Salt000000000007:IgZ")),
        vec!["1", "20", "1700000000", "alice@example.com", "", "Salt000000000007", "IgZ"]
    );
}

#[test]
fn push_bytes_appends() {
    let mut out = b"ab".to_vec();
    push_bytes(&mut out, b"cd");
    push_bytes(&mut out, b"");
    assert_eq!(out, b"abcd".to_vec());
}
