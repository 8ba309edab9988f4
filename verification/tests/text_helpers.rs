use redis_starter_rust::text::{
    bytes_eq, contains, copy_range, find_byte, find_line_end, i64_to_dec, is_word, parse_i64,
    parse_u128, parse_u16, parse_u64, parse_usize, split_words, to_ascii_lowercase,
    to_ascii_uppercase, u128_to_dec,
};

#[test]
fn decimal_digits_of_numbers() {
    assert_eq!(u128_to_dec(0), b"0".to_vec());
    assert_eq!(u128_to_dec(9), b"9".to_vec());
    assert_eq!(u128_to_dec(10), b"10".to_vec());
    assert_eq!(u128_to_dec(6379), b"6379".to_vec());
    assert_eq!(
        u128_to_dec(u128::MAX),
        b"340282366920938463463374607431768211455".to_vec()
    );
    assert_eq!(i64_to_dec(-7), b"-7".to_vec());
    assert_eq!(i64_to_dec(i64::MAX), b"9223372036854775807".to_vec());
}

#[test]
fn numbers_are_read_back() {
    assert_eq!(parse_u64(b"0"), Some(0));
    assert_eq!(parse_u64(b"18446744073709551615"), Some(u64::MAX));
    assert_eq!(parse_u64(b"18446744073709551616"), None);
    assert_eq!(parse_u64(b"+12"), Some(12));
    assert_eq!(parse_u64(b"-12"), None);
    assert_eq!(parse_u64(b""), None);
    assert_eq!(parse_u64(b"+"), None);
    assert_eq!(parse_u64(b"1 2"), None);
    assert_eq!(parse_u64(b"0000000000000000000000012"), Some(12));
    assert_eq!(parse_u16(b"65535"), Some(65535));
    assert_eq!(parse_u16(b"65536"), None);
    assert_eq!(parse_usize(b"42"), Some(42));
    assert_eq!(parse_u128(b"340282366920938463463374607431768211455"), Some(u128::MAX));
    assert_eq!(parse_u128(b"340282366920938463463374607431768211456"), None);
    assert_eq!(parse_i64(b"-0"), Some(0));
    assert_eq!(parse_i64(b"-"), None);
    assert_eq!(parse_i64(b"--1"), None);
    assert_eq!(parse_i64(b"12x"), None);
    for n in [0i64, 1, -1, 99, -100, i64::MAX, i64::MIN] {
        assert_eq!(parse_i64(&i64_to_dec(n)), Some(n));
    }
}

#[test]
fn case_folding_touches_letters_only() {
    assert_eq!(to_ascii_lowercase(b"GeT-1 [Z]{"), b"get-1 [z]{".to_vec());
    assert_eq!(to_ascii_uppercase(b"GeT-1 `az{"), b"GET-1 `AZ{".to_vec());
    assert!(is_word(b"PiNg", b"ping"));
    assert!(!is_word(b"pings", b"ping"));
}

#[test]
fn searching_bytes() {
    assert!(contains(b"+PONG\r\n", b"PONG"));
    assert!(contains(b"abc", b""));
    assert!(contains(b"abc", b"abc"));
    assert!(!contains(b"abc", b"abcd"));
    assert!(!contains(b"abcabd", b"abe"));
    assert!(contains(b"abcabd", b"abd"));
    assert_eq!(find_line_end(b"ab\r\ncd\r\n", 0), Some(2));
    assert_eq!(find_line_end(b"ab\r\ncd\r\n", 3), Some(6));
    assert_eq!(find_line_end(b"ab\rcd\n", 0), None);
    assert_eq!(find_byte(b"12-3-4", 45), Some(2));
    assert_eq!(find_byte(b"1234", 45), None);
    assert!(bytes_eq(b"", b""));
    assert!(!bytes_eq(b"a", b"b"));
    assert_eq!(copy_range(b"hello", 1, 3), b"el".to_vec());
}

#[test]
fn words_stand_between_spaces() {
    assert_eq!(split_words(b"localhost 6379"), vec![b"localhost".to_vec(), b"6379".to_vec()]);
    assert_eq!(split_words(b"  a   b "), vec![b"a".to_vec(), b"b".to_vec()]);
    assert_eq!(split_words(b""), Vec::<Vec<u8>>::new());
    assert_eq!(split_words(b"   "), Vec::<Vec<u8>>::new());
    assert_eq!(split_words(b"one"), vec![b"one".to_vec()]);
}
