use scan::number::Radix;
use scan::scanner::{is_whitespace, stdin, Real, Scanner};

fn on(text: &str) -> Scanner {
    stdin(text.as_bytes().to_vec(), false)
}

fn rest(s: Scanner) -> String {
    String::from_utf8(s.finish()).unwrap()
}

fn base(radix: Radix) -> f64 {
    match radix {
        Radix::Binary => 2.0,
        Radix::Octal => 8.0,
        Radix::Decimal => 10.0,
        Radix::Hex => 16.0,
    }
}

fn value(x: &Real) -> f64 {
    let b = base(x.radix);
    let mut frac = 0.0;
    for &d in &x.fraction {
        frac = frac * b + d as f64;
    }
    frac /= b.powi(x.fraction.len() as i32);
    let v = x.whole as f64 + frac;
    if x.negative {
        -v
    } else {
        v
    }
}

#[test]
fn whitespace_bytes() {
    for b in [9u8, 10, 11, 12, 13, 32] {
        assert!(is_whitespace(b));
    }
    for b in [0u8, 8, 14, 31, 33, b'a', 0xA0, 255] {
        assert!(!is_whitespace(b));
    }
}

#[test]
fn unsigned_integer_hexadecimal() {
    let mut s = on("0x1A");
    assert_eq!(s.unsigned_integer(), Some(26));
    assert_eq!(rest(s), "");
}

#[test]
fn unsigned_integer_binary() {
    assert_eq!(on("0b101").unsigned_integer(), Some(5));
    assert_eq!(on("0B101").unsigned_integer(), Some(5));
}

#[test]
fn unsigned_integer_octal() {
    assert_eq!(on("0o17").unsigned_integer(), Some(15));
    assert_eq!(on("0O17").unsigned_integer(), Some(15));
}

#[test]
fn unsigned_integer_with_leading_zero_is_decimal() {
    assert_eq!(on("017").unsigned_integer(), Some(17));
}

#[test]
fn unsigned_integer_decimal() {
    assert_eq!(on("42").unsigned_integer(), Some(42));
}

#[test]
fn unsigned_integer_on_empty_input() {
    assert_eq!(on("").unsigned_integer(), None);
}

#[test]
fn unsigned_integer_on_non_digit_leaves_it_unread() {
    let mut s = on("x1");
    assert_eq!(s.unsigned_integer(), None);
    assert_eq!(rest(s), "x1");
}

#[test]
fn lone_zero_is_zero() {
    assert_eq!(on("0").unsigned_integer(), Some(0));
    let mut s = on("0 1");
    assert_eq!(s.unsigned_integer(), Some(0));
    assert_eq!(rest(s), " 1");
    let mut s = on("0z");
    assert_eq!(s.unsigned_integer(), Some(0));
    assert_eq!(rest(s), "z");
}

#[test]
fn prefix_without_digits_is_consumed_and_yields_nothing() {
    let mut s = on("0xg");
    assert_eq!(s.unsigned_integer(), None);
    assert_eq!(rest(s), "g");
}

#[test]
fn unsigned_integer_stops_at_first_non_digit() {
    let mut s = on("123abc");
    assert_eq!(s.unsigned_integer(), Some(123));
    assert_eq!(rest(s), "abc");
    let mut s = on("0b1012");
    assert_eq!(s.unsigned_integer(), Some(5));
    assert_eq!(rest(s), "2");
    let mut s = on("0o178");
    assert_eq!(s.unsigned_integer(), Some(15));
    assert_eq!(rest(s), "8");
}

#[test]
fn hexadecimal_takes_both_cases() {
    assert_eq!(on("0xabcdef").unsigned_integer(), Some(0xabcdef));
    assert_eq!(on("0XABCDEF").unsigned_integer(), Some(0xabcdef));
    assert_eq!(on("0x09aF").unsigned_integer(), Some(0x09af));
}

#[test]
fn digits_of_each_radix() {
    assert_eq!(on("101").binary(), Some(5));
    assert_eq!(on("17").octal(), Some(15));
    assert_eq!(on("42").decimal(), Some(42));
    assert_eq!(on("1A").hexadecimal(), Some(26));
    assert_eq!(on("1a").hexadecimal(), Some(26));
    assert_eq!(on("2").binary(), None);
    assert_eq!(on("8").octal(), None);
    assert_eq!(on("a").decimal(), None);
    assert_eq!(on("g").hexadecimal(), None);
    assert_eq!(on("101").digits(Radix::Binary), Some(5));
    assert_eq!(on("17").digits(Radix::Octal), Some(15));
    assert_eq!(on("42").digits(Radix::Decimal), Some(42));
    assert_eq!(on("ff").digits(Radix::Hex), Some(255));
}

#[test]
fn digits_wrap_modulo_two_to_the_64() {
    assert_eq!(on("18446744073709551615").decimal(), Some(u64::MAX));
    assert_eq!(on("18446744073709551616").decimal(), Some(0));
    assert_eq!(on("18446744073709551617").decimal(), Some(1));
    assert_eq!(on("0x1ffffffffffffffff").unsigned_integer(), Some(u64::MAX));
}

#[test]
fn classify_reads_prefixes() {
    let mut s = on("0x1");
    assert_eq!(s.classify(), (Radix::Hex, false));
    assert_eq!(rest(s), "1");
    let mut s = on("0o1");
    assert_eq!(s.classify(), (Radix::Octal, false));
    assert_eq!(rest(s), "1");
    let mut s = on("0b1");
    assert_eq!(s.classify(), (Radix::Binary, false));
    assert_eq!(rest(s), "1");
}

#[test]
fn classify_takes_a_lone_zero() {
    let mut s = on("07");
    assert_eq!(s.classify(), (Radix::Decimal, true));
    assert_eq!(rest(s), "7");
    let mut s = on("0");
    assert_eq!(s.classify(), (Radix::Decimal, true));
    assert_eq!(rest(s), "");
}

#[test]
fn classify_leaves_everything_else() {
    let mut s = on("7");
    assert_eq!(s.classify(), (Radix::Decimal, false));
    assert_eq!(rest(s), "7");
    let mut s = on(".5");
    assert_eq!(s.classify(), (Radix::Decimal, false));
    assert_eq!(rest(s), ".5");
    assert_eq!(on("").classify(), (Radix::Decimal, false));
}

#[test]
fn sign_reads_plus_and_minus() {
    let mut s = on("-7");
    assert_eq!(s.sign(), -1);
    assert_eq!(rest(s), "7");
    let mut s = on("+7");
    assert_eq!(s.sign(), 1);
    assert_eq!(rest(s), "7");
    let mut s = on("7");
    assert_eq!(s.sign(), 1);
    assert_eq!(rest(s), "7");
    assert_eq!(on("").sign(), 1);
}

#[test]
fn signed_integer_negative() {
    assert_eq!(on("-7").signed_integer(), Some(-7));
}

#[test]
fn signed_integer_positive() {
    assert_eq!(on("+7").signed_integer(), Some(7));
    assert_eq!(on("7").signed_integer(), Some(7));
}

#[test]
fn signed_integer_with_prefix() {
    assert_eq!(on("-0x10").signed_integer(), Some(-16));
    assert_eq!(on("-0").signed_integer(), Some(0));
}

#[test]
fn signed_integer_without_digits() {
    let mut s = on("-x");
    assert_eq!(s.signed_integer(), None);
    assert_eq!(rest(s), "x");
    assert_eq!(on("-").signed_integer(), None);
    assert_eq!(on("").signed_integer(), None);
}

#[test]
fn signed_integer_wraps() {
    assert_eq!(on("9223372036854775807").signed_integer(), Some(i64::MAX));
    assert_eq!(on("9223372036854775808").signed_integer(), Some(i64::MIN));
    assert_eq!(on("-9223372036854775808").signed_integer(), Some(i64::MIN));
    assert_eq!(on("-9223372036854775809").signed_integer(), Some(i64::MAX));
    assert_eq!(on("18446744073709551615").signed_integer(), Some(-1));
    assert_eq!(on("-18446744073709551615").signed_integer(), Some(1));
}

#[test]
fn float_with_fraction() {
    let mut s = on("3.25");
    let x = s.float().unwrap();
    assert_eq!(
        x,
        Real { negative: false, radix: Radix::Decimal, whole: 3, fraction: vec![2, 5] }
    );
    assert_eq!(value(&x), 3.25);
    assert_eq!(rest(s), "");
}

#[test]
fn float_without_fraction() {
    let mut s = on("3");
    let x = s.float().unwrap();
    assert_eq!(x, Real { negative: false, radix: Radix::Decimal, whole: 3, fraction: vec![] });
    assert_eq!(value(&x), 3.0);
}

#[test]
fn float_beginning_with_point_is_no_number() {
    let mut s = on(".5");
    assert_eq!(s.float(), None);
    assert_eq!(rest(s), ".5");
}

#[test]
fn float_with_lone_zero() {
    let x = on("0.5").float().unwrap();
    assert_eq!(value(&x), 0.5);
    let x = on("0").float().unwrap();
    assert_eq!(value(&x), 0.0);
}

#[test]
fn float_with_sign() {
    let x = on("-3.5").float().unwrap();
    assert!(x.negative);
    assert_eq!(value(&x), -3.5);
    let x = on("-3").float().unwrap();
    assert_eq!(value(&x), -3.0);
    let x = on("+2.5").float().unwrap();
    assert_eq!(value(&x), 2.5);
}

#[test]
fn float_with_point_and_no_digits_behind_it() {
    let mut s = on("3.x");
    let x = s.float().unwrap();
    assert_eq!(x, Real { negative: false, radix: Radix::Decimal, whole: 3, fraction: vec![] });
    assert_eq!(rest(s), "x");
}

#[test]
fn float_leaves_what_follows() {
    let mut s = on("1.5 rest");
    assert_eq!(value(&s.float().unwrap()), 1.5);
    assert_eq!(rest(s), " rest");
    let mut s = on("15 rest");
    assert_eq!(value(&s.float().unwrap()), 15.0);
    assert_eq!(rest(s), " rest");
}

#[test]
fn float_in_other_radixes() {
    let x = on("0x1.8").float().unwrap();
    assert_eq!(x, Real { negative: false, radix: Radix::Hex, whole: 1, fraction: vec![8] });
    assert_eq!(value(&x), 1.5);
    let x = on("0xA.f").float().unwrap();
    assert_eq!(x.fraction, vec![15]);
    assert_eq!(value(&x), 10.9375);
    let x = on("0b1.01").float().unwrap();
    assert_eq!(value(&x), 1.25);
    let x = on("0o7.4").float().unwrap();
    assert_eq!(value(&x), 7.5);
}

#[test]
fn float_without_digits() {
    assert_eq!(on("").float(), None);
    assert_eq!(on("abc").float(), None);
    assert_eq!(on("-").float(), None);
    let mut s = on("0x.5");
    assert_eq!(s.float(), None);
    assert_eq!(rest(s), ".5");
}

#[test]
fn digits_behind_the_point() {
    assert_eq!(on("101").binary_inv(), Some(vec![1, 0, 1]));
    assert_eq!(on("17").octal_inv(), Some(vec![1, 7]));
    assert_eq!(on("25x").decimal_inv(), Some(vec![2, 5]));
    assert_eq!(on("aF").hexadecimal_inv(), Some(vec![10, 15]));
    assert_eq!(on("x").decimal_inv(), None);
    assert_eq!(on("").hexadecimal_inv(), None);
    assert_eq!(on("9").digits_inv(Radix::Decimal), Some(vec![9]));
    assert_eq!(on("9").digits_inv(Radix::Octal), None);
    assert_eq!(on("1").digits_inv(Radix::Binary), Some(vec![1]));
    assert_eq!(on("c").digits_inv(Radix::Hex), Some(vec![12]));
}

#[test]
fn literal_mismatch_keeps_what_matched_consumed() {
    let mut s = on("abd...");
    assert_eq!(s.literal("abc"), None);
    assert_eq!(rest(s), "d...");
}

#[test]
fn literal_match_consumes_the_literal() {
    let mut s = on("abc...");
    assert_eq!(s.literal("abc"), Some(()));
    assert_eq!(rest(s), "...");
}

#[test]
fn literal_fails_when_input_ends_first() {
    let mut s = on("ab");
    assert_eq!(s.literal("abc"), None);
    assert_eq!(rest(s), "");
    assert_eq!(on("").literal("a"), None);
}

#[test]
fn empty_literal_always_matches() {
    let mut s = on("abc");
    assert_eq!(s.literal(""), Some(()));
    assert_eq!(rest(s), "abc");
    assert_eq!(on("").literal(""), Some(()));
}

#[test]
fn literal_is_compared_byte_by_byte() {
    let mut s = on("süß!");
    assert_eq!(s.literal("süß"), Some(()));
    assert_eq!(rest(s), "!");
    let mut s = stdin(vec![0xC3, 0xA4, b'x'], false);
    assert_eq!(s.literal("ü"), None);
    assert_eq!(s.finish(), vec![0xA4, b'x']);
}

#[test]
fn whitespace_is_skipped() {
    let mut s = on(" \t\x0b\x0c\r x y");
    s.whitespace();
    assert_eq!(rest(s), "x y");
    let mut s = on("x");
    s.whitespace();
    assert_eq!(rest(s), "x");
    let mut s = on("   ");
    s.whitespace();
    assert_eq!(rest(s), "");
}

#[test]
fn word_stops_at_whitespace() {
    let mut s = on("Zurich is");
    assert_eq!(s.word(), "Zurich");
    assert_eq!(rest(s), " is");
    let mut s = on("one\ttwo");
    assert_eq!(s.word(), "one");
    assert_eq!(rest(s), "\ttwo");
}

#[test]
fn word_at_whitespace_is_empty() {
    let mut s = on(" x");
    assert_eq!(s.word(), "");
    assert_eq!(rest(s), " x");
    assert_eq!(on("").word(), "");
}

#[test]
fn word_replaces_malformed_bytes() {
    let mut s = stdin(vec![b'a', 0x80, b'b', b' '], false);
    assert_eq!(s.word(), "a\u{fffd}b");
    assert_eq!(s.finish(), vec![b' ']);
}

#[test]
fn word_replaces_a_sequence_cut_short_by_the_end() {
    let mut s = stdin(vec![b'a', 0xE2, 0x82], false);
    assert_eq!(s.word(), "a\u{fffd}\u{fffd}");
    let mut s = stdin(vec![b'a', 0xE2, 0x82, b' ', b'b'], false);
    assert_eq!(s.word(), "a\u{fffd}\u{fffd}");
    assert_eq!(s.finish(), vec![b' ', b'b']);
}

#[test]
fn line_reads_to_the_line_feed_and_consumes_it() {
    let mut s = on("hello world\nnext");
    assert_eq!(s.line(), "hello world");
    assert_eq!(rest(s), "next");
}

#[test]
fn line_without_line_feed_reads_everything() {
    let mut s = on("hello world");
    assert_eq!(s.line(), "hello world");
    assert_eq!(rest(s), "");
}

#[test]
fn string_with_neither_flag_reads_the_line() {
    let mut s = on("a b\nc");
    assert_eq!(s.string(false, false), "a b");
    assert_eq!(rest(s), "c");
}

#[test]
fn string_with_word_flag_is_word() {
    let mut s = on("a b\nc");
    assert_eq!(s.string(true, false), "a");
    assert_eq!(rest(s), " b\nc");
    let mut s = on("a b\nc");
    assert_eq!(s.string(true, true), "a");
    assert_eq!(rest(s), " b\nc");
}

#[test]
fn scanner_ends_with_its_line() {
    let mut s = on("12\n34");
    assert_eq!(s.unsigned_integer(), Some(12));
    assert_eq!(s.unsigned_integer(), None);
    assert_eq!(rest(s), "34");
}

#[test]
fn exhausted_scanner_reads_nothing() {
    let mut s = on("1\n2");
    assert_eq!(s.unsigned_integer(), Some(1));
    assert_eq!(s.word(), "");
    assert_eq!(s.literal("2"), None);
    assert_eq!(s.float(), None);
    s.whitespace();
    assert_eq!(rest(s), "2");
}

#[test]
fn finish_keeps_the_rest_of_the_line() {
    let mut s = stdin(b"12 abc\nnext".to_vec(), false);
    assert_eq!(s.unsigned_integer(), Some(12));
    assert_eq!(s.finish(), b" abc\nnext".to_vec());
}

#[test]
fn finish_drops_the_rest_of_the_line() {
    let mut s = stdin(b"12 abc\nnext".to_vec(), true);
    assert_eq!(s.unsigned_integer(), Some(12));
    assert_eq!(s.finish(), b"next".to_vec());
    let s = stdin(b"no line feed".to_vec(), true);
    assert_eq!(s.finish(), Vec::<u8>::new());
}

#[test]
fn finish_after_the_line_ended_drops_nothing_more() {
    let mut s = stdin(b"a\nb\nc".to_vec(), true);
    assert_eq!(s.line(), "a");
    assert_eq!(s.finish(), b"b\nc".to_vec());
}
