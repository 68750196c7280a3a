use scan::stdin::Stdin;

fn cursor(text: &str) -> Stdin {
    Stdin::new(text.as_bytes().to_vec())
}

#[test]
fn bytes_come_in_order() {
    let mut s = cursor("ab");
    assert_eq!(s.next(), Ok(b'a'));
    assert_eq!(s.next(), Ok(b'b'));
    assert_eq!(s.next(), Err(()));
}

#[test]
fn end_of_source_exhausts_the_cursor() {
    let mut s = cursor("");
    assert!(!s.done());
    assert_eq!(s.next(), Err(()));
    assert!(s.done());
    assert_eq!(s.next(), Err(()));
}

#[test]
fn line_feed_exhausts_the_cursor_and_is_consumed() {
    let mut s = cursor("a\nb");
    assert_eq!(s.next(), Ok(b'a'));
    assert!(!s.done());
    assert_eq!(s.next(), Err(()));
    assert!(s.done());
    assert_eq!(s.next(), Err(()));
    assert_eq!(s.into_rest(), b"b".to_vec());
}

#[test]
fn pushed_byte_comes_first() {
    let mut s = cursor("bc");
    s.push(b'a');
    assert_eq!(s.next(), Ok(b'a'));
    assert_eq!(s.next(), Ok(b'b'));
}

#[test]
fn byte_read_and_pushed_back_is_read_again() {
    let mut s = cursor("xy");
    let b = s.next().unwrap();
    s.push(b);
    assert_eq!(s.next(), Ok(b'x'));
    assert_eq!(s.next(), Ok(b'y'));
}

#[test]
fn second_push_is_dropped() {
    let mut s = cursor("c");
    s.push(b'a');
    s.push(b'b');
    assert_eq!(s.next(), Ok(b'a'));
    assert_eq!(s.next(), Ok(b'c'));
}

#[test]
fn pushed_line_feed_is_handed_out_as_a_byte() {
    let mut s = cursor("a");
    s.push(b'\n');
    assert_eq!(s.next(), Ok(b'\n'));
    assert!(!s.done());
    assert_eq!(s.next(), Ok(b'a'));
}

#[test]
fn exhausted_cursor_hands_out_nothing_even_after_a_push() {
    let mut s = cursor("");
    assert_eq!(s.next(), Err(()));
    s.push(b'a');
    assert_eq!(s.next(), Err(()));
    assert_eq!(s.into_rest(), b"a".to_vec());
}

#[test]
fn rest_holds_the_pushed_byte_first() {
    let mut s = cursor("abc\ndef");
    assert_eq!(s.next(), Ok(b'a'));
    assert_eq!(s.next(), Ok(b'b'));
    s.push(b'b');
    assert_eq!(s.into_rest(), b"bc\ndef".to_vec());
}

#[test]
fn rest_of_a_fresh_cursor_is_the_source() {
    assert_eq!(cursor("hello\n").into_rest(), b"hello\n".to_vec());
}
