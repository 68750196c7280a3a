use scan::util::{PeekN, Stream, Token};

#[test]
fn peekn_counts_what_it_hands_out() {
    let mut p = PeekN::new("abc".chars());
    assert_eq!(p.next(), Some((0, 'a')));
    assert_eq!(p.next(), Some((1, 'b')));
    assert_eq!(p.next(), Some((2, 'c')));
    assert_eq!(p.next(), None);
    assert_eq!(p.next(), None);
}

#[test]
fn peekn_looks_ahead_without_handing_out() {
    let mut p = PeekN::new("abc".chars());
    assert_eq!(p.peek(0), Some('a'));
    assert_eq!(p.peek(2), Some('c'));
    assert_eq!(p.peek(1), Some('b'));
    assert_eq!(p.next(), Some((0, 'a')));
    assert_eq!(p.peek(0), Some('b'));
    assert_eq!(p.next(), Some((1, 'b')));
    assert_eq!(p.next(), Some((2, 'c')));
    assert_eq!(p.peek(0), None);
    assert_eq!(p.next(), None);
}

#[test]
fn peekn_looking_too_far_keeps_the_items() {
    let mut p = PeekN::new(vec![1u8, 2].into_iter());
    assert_eq!(p.peek(5), None);
    assert_eq!(p.peek(usize::MAX), None);
    assert_eq!(p.peek(1), Some(2));
    assert_eq!(p.next(), Some((0, 1)));
    assert_eq!(p.next(), Some((1, 2)));
    assert_eq!(p.next(), None);
}

#[test]
fn peekn_over_nothing() {
    let mut p = PeekN::new("".chars());
    assert_eq!(p.peek(0), None);
    assert_eq!(p.next(), None);
}

fn tokens() -> Vec<(usize, Token)> {
    vec![
        (0, Token::LeftBrace),
        (1, Token::Space),
        (3, Token::Space),
        (4, Token::Literal(2)),
        (6, Token::RightBrace),
    ]
}

#[test]
fn stream_hands_out_tokens_in_order() {
    let mut s = Stream::new(tokens());
    assert_eq!(s.next(), Some((0, Token::LeftBrace)));
    assert_eq!(s.next(), Some((1, Token::Space)));
    assert_eq!(s.next(), Some((3, Token::Space)));
    assert_eq!(s.next(), Some((4, Token::Literal(2))));
    assert_eq!(s.next(), Some((6, Token::RightBrace)));
    assert_eq!(s.next(), None);
    assert_eq!(s.next(), None);
}

#[test]
fn stream_steps_back() {
    let mut s = Stream::new(tokens());
    s.step_back();
    assert_eq!(s.next(), Some((0, Token::LeftBrace)));
    assert_eq!(s.next(), Some((1, Token::Space)));
    s.step_back();
    assert_eq!(s.next(), Some((1, Token::Space)));
    s.step_back();
    s.step_back();
    s.step_back();
    assert_eq!(s.next(), Some((0, Token::LeftBrace)));
}

#[test]
fn stream_skips_spaces() {
    let mut s = Stream::new(tokens());
    s.skip_spaces();
    assert_eq!(s.next(), Some((0, Token::LeftBrace)));
    s.skip_spaces();
    assert_eq!(s.next(), Some((4, Token::Literal(2))));
    s.skip_spaces();
    assert_eq!(s.next(), Some((6, Token::RightBrace)));
}

#[test]
fn stream_skipping_spaces_at_the_end_stays_at_the_end() {
    let mut s = Stream::new(vec![(0, Token::Colon), (1, Token::Space)]);
    assert_eq!(s.next(), Some((0, Token::Colon)));
    s.skip_spaces();
    assert_eq!(s.next(), None);
    let mut s = Stream::new(vec![(0, Token::Colon)]);
    assert_eq!(s.next(), Some((0, Token::Colon)));
    s.skip_spaces();
    assert_eq!(s.next(), None);
    let mut s = Stream::new(vec![]);
    s.skip_spaces();
    assert_eq!(s.next(), None);
}
