use token_reader::number::parse_int;
use token_reader::source::{is_whitespace, split_tokens};
use token_reader::{read_array, read_counted, Bytes, Chars, OnceSource, ReadError, Readable, Source};

#[test]
fn case_1() {
    let mut source = OnceSource::new("10\n");
    let n = u8::read(&mut source).unwrap();
    assert_eq!(n, 10);
}

#[test]
fn empty() {
    let mut source = OnceSource::new("");
    assert!(source.is_empty());
}

#[test]
fn marker_chars() {
    let mut source = OnceSource::new("abcd");
    let c = Chars::read(&mut source).unwrap();
    assert_eq!(c, vec!['a', 'b', 'c', 'd']);
}

#[test]
fn marker_bytes() {
    let mut source = OnceSource::new("ABC");
    let b = Bytes::read(&mut source).unwrap();
    assert_eq!(b, vec![0x41, 0x42, 0x43]);
}

#[test]
fn array_1() {
    let mut source = OnceSource::new("1 2 3");
    let a = read_array::<i32, _>(&mut source, 3).unwrap();
    assert_eq!(a, [1, 2, 3]);
}

#[test]
fn integers_come_back_in_order() {
    let mut source = OnceSource::new("5 -17\t0\n  42 9223372036854775807 -9223372036854775808");
    let mut got = Vec::new();
    for _ in 0..6 {
        got.push(i64::read(&mut source).unwrap());
    }
    assert_eq!(got, vec![5, -17, 0, 42, i64::MAX, i64::MIN]);
    assert!(source.is_empty());
}

#[test]
fn is_empty_agrees_with_next_token() {
    let mut source = OnceSource::new(" x ");
    assert!(!source.is_empty());
    assert_eq!(source.next_token(), Some("x"));
    assert!(source.is_empty());
    assert_eq!(source.next_token(), None);
    assert!(source.is_empty());
}

#[test]
fn blank_input_has_no_tokens() {
    let mut source = OnceSource::new(" \t\n\r\n  ");
    assert!(source.is_empty());
    assert_eq!(source.next_token(), None);
}

#[test]
fn count_then_array() {
    let mut source = OnceSource::new("3 1 2 3");
    let n = usize::read(&mut source).unwrap();
    let a = read_array::<i32, _>(&mut source, n).unwrap();
    assert_eq!(n, 3);
    assert_eq!(a, vec![1, 2, 3]);
    assert!(source.is_empty());
}

#[test]
fn counted_array_reads_its_length_first() {
    let mut source = OnceSource::new("2 10 20 30");
    let a = read_counted::<u32, _>(&mut source).unwrap();
    assert_eq!(a, vec![10, 20]);
    assert_eq!(u32::read(&mut source), Ok(30));
}

#[test]
fn empty_array_reads_nothing() {
    let mut source = OnceSource::new("7");
    let a = read_array::<i32, _>(&mut source, 0).unwrap();
    assert!(a.is_empty());
    assert_eq!(i32::read(&mut source), Ok(7));
}

#[test]
fn exhausted_scalar_is_an_error() {
    let mut source = OnceSource::new("");
    assert_eq!(i32::read(&mut source), Err(ReadError::Exhausted));
    assert_eq!(char::read(&mut source), Err(ReadError::Exhausted));
    assert_eq!(String::read(&mut source), Err(ReadError::Exhausted));
}

#[test]
fn exhausted_in_array_is_an_error() {
    let mut source = OnceSource::new("1 2");
    assert_eq!(read_array::<i32, _>(&mut source, 3), Err(ReadError::Exhausted));
    assert!(source.is_empty());
}

#[test]
fn unparsable_scalar_is_an_error() {
    let mut source = OnceSource::new("x 5");
    assert_eq!(
        i32::read(&mut source),
        Err(ReadError::Invalid { token: "x".to_string() })
    );
    assert_eq!(i32::read(&mut source), Ok(5));
}

#[test]
fn invalid_element_stops_array() {
    let mut source = OnceSource::new("1 two 3");
    assert_eq!(
        read_array::<u8, _>(&mut source, 3),
        Err(ReadError::Invalid { token: "two".to_string() })
    );
    assert_eq!(u8::read(&mut source), Ok(3));
}

#[test]
fn integer_bounds_are_kept() {
    let mut source = OnceSource::new("255 256 -1 -128 127 128 +7 -0 00012");
    assert_eq!(u8::read(&mut source), Ok(255));
    assert_eq!(u8::read(&mut source), Err(ReadError::Invalid { token: "256".to_string() }));
    assert_eq!(u8::read(&mut source), Err(ReadError::Invalid { token: "-1".to_string() }));
    assert_eq!(i8::read(&mut source), Ok(-128));
    assert_eq!(i8::read(&mut source), Ok(127));
    assert_eq!(i8::read(&mut source), Err(ReadError::Invalid { token: "128".to_string() }));
    assert_eq!(u16::read(&mut source), Ok(7));
    assert_eq!(u64::read(&mut source), Err(ReadError::Invalid { token: "-0".to_string() }));
    assert_eq!(isize::read(&mut source), Ok(12));
}

#[test]
fn wide_integers() {
    let mut source = OnceSource::new("18446744073709551615 18446744073709551616 -2147483648 4294967295");
    assert_eq!(u64::read(&mut source), Ok(u64::MAX));
    assert!(u64::read(&mut source).is_err());
    assert_eq!(i32::read(&mut source), Ok(i32::MIN));
    assert_eq!(u32::read(&mut source), Ok(u32::MAX));
}

#[test]
fn sign_alone_is_not_a_number() {
    assert_eq!(parse_int("+", -10, 10), None);
    assert_eq!(parse_int("-", -10, 10), None);
    assert_eq!(parse_int("", -10, 10), None);
    assert_eq!(parse_int("-10", -10, 10), Some(-10));
    assert_eq!(parse_int("1_0", -10, 10), None);
}

#[test]
fn char_and_string_kinds() {
    let mut source = OnceSource::new("é ab héllo");
    assert_eq!(char::read(&mut source), Ok('é'));
    assert_eq!(char::read(&mut source), Err(ReadError::Invalid { token: "ab".to_string() }));
    assert_eq!(String::read(&mut source), Ok("héllo".to_string()));
}

#[test]
fn bytes_of_non_ascii_token() {
    let mut source = OnceSource::new("é");
    assert_eq!(Bytes::read(&mut source), Ok(vec![0xc3, 0xa9]));
}

#[test]
fn unicode_whitespace_separates_tokens() {
    let tokens = split_tokens("a\u{a0}b\u{3000}c\u{2028}d\u{b}e f");
    assert_eq!(tokens, vec!["a", "b", "c", "d", "e", "f"]);
    assert!(is_whitespace('\u{85}'));
    assert!(!is_whitespace('\u{200b}'));
    assert!(!is_whitespace('x'));
}

#[test]
fn next_token_unwrap_takes_tokens_in_order() {
    let mut source = OnceSource::new("  first\nsecond  ");
    assert_eq!(source.next_token_unwrap(), "first");
    assert_eq!(source.next_token_unwrap(), "second");
    assert!(source.is_empty());
}
