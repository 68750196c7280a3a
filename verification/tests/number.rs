use scan::number::Radix;

#[test]
fn bases() {
    assert_eq!(Radix::Binary.value(), 2);
    assert_eq!(Radix::Octal.value(), 8);
    assert_eq!(Radix::Decimal.value(), 10);
    assert_eq!(Radix::Hex.value(), 16);
}

#[test]
fn digits_below_the_base() {
    assert_eq!(Radix::Binary.digit(b'0'), Some(0));
    assert_eq!(Radix::Binary.digit(b'1'), Some(1));
    assert_eq!(Radix::Binary.digit(b'2'), None);
    assert_eq!(Radix::Octal.digit(b'7'), Some(7));
    assert_eq!(Radix::Octal.digit(b'8'), None);
    assert_eq!(Radix::Decimal.digit(b'9'), Some(9));
    assert_eq!(Radix::Decimal.digit(b'a'), None);
    assert_eq!(Radix::Hex.digit(b'9'), Some(9));
}

#[test]
fn hexadecimal_letters() {
    assert_eq!(Radix::Hex.digit(b'a'), Some(10));
    assert_eq!(Radix::Hex.digit(b'f'), Some(15));
    assert_eq!(Radix::Hex.digit(b'A'), Some(10));
    assert_eq!(Radix::Hex.digit(b'F'), Some(15));
    assert_eq!(Radix::Hex.digit(b'g'), None);
    assert_eq!(Radix::Hex.digit(b'G'), None);
    assert_eq!(Radix::Hex.digit(b'`'), None);
    assert_eq!(Radix::Hex.digit(b'@'), None);
}

#[test]
fn bytes_that_are_no_digit() {
    for radix in [Radix::Binary, Radix::Octal, Radix::Decimal, Radix::Hex] {
        for b in [0u8, b' ', b'/', b':', b'-', b'.', 0x80, 0xFF] {
            assert_eq!(radix.digit(b), None);
        }
    }
}
