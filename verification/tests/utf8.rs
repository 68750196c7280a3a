use scan::utf8::{REPLACEMENT, UTF8};

fn decode(bytes: &[u8]) -> String {
    let mut d = UTF8::new();
    let mut out = String::new();
    for &b in bytes {
        let (first, second) = d.push(b);
        if let Some(c) = first {
            out.push(c);
        }
        if let Some(c) = second {
            out.push(c);
        }
    }
    if d.pending() {
        out.push(REPLACEMENT);
    }
    out
}

#[test]
fn replacement_is_fffd() {
    assert_eq!(REPLACEMENT, '\u{fffd}');
}

#[test]
fn fresh_decoder_has_nothing_pending() {
    assert!(!UTF8::new().pending());
}

#[test]
fn ascii_byte_is_passed_through() {
    let mut d = UTF8::new();
    assert_eq!(d.push(b'A'), (None, Some('A')));
    assert_eq!(d.push(0x7f), (None, Some('\u{7f}')));
    assert_eq!(d.push(0), (None, Some('\0')));
    assert!(!d.pending());
}

#[test]
fn ascii_text_round_trips() {
    let text = "The quick brown fox, 1995!\t~";
    assert_eq!(decode(text.as_bytes()), text);
}

#[test]
fn every_ascii_byte_round_trips() {
    let bytes: Vec<u8> = (0u8..0x80).collect();
    let text: String = bytes.iter().map(|&b| b as char).collect();
    assert_eq!(decode(&bytes), text);
}

#[test]
fn lead_byte_is_marked_and_sequence_completes() {
    let mut d = UTF8::new();
    assert_eq!(d.push(0xC3), (None, Some(REPLACEMENT)));
    assert!(d.pending());
    assert_eq!(d.push(0xA9), (Some('\u{e9}'), None));
    assert!(!d.pending());
}

#[test]
fn three_byte_sequence_completes() {
    let mut d = UTF8::new();
    assert_eq!(d.push(0xE2), (None, Some(REPLACEMENT)));
    assert_eq!(d.push(0x82), (None, None));
    assert!(d.pending());
    assert_eq!(d.push(0xAC), (Some('\u{20ac}'), None));
    assert!(!d.pending());
}

#[test]
fn four_byte_sequence_completes() {
    let mut d = UTF8::new();
    assert_eq!(d.push(0xF0), (None, Some(REPLACEMENT)));
    assert_eq!(d.push(0x9F), (None, None));
    assert_eq!(d.push(0x98), (None, None));
    assert_eq!(d.push(0x80), (Some('\u{1f600}'), None));
    assert!(!d.pending());
}

#[test]
fn multi_byte_text_carries_one_mark_per_character() {
    assert_eq!(decode("Zürich".as_bytes()), "Z\u{fffd}ürich");
    assert_eq!(decode("€".as_bytes()), "\u{fffd}€");
}

#[test]
fn lone_continuation_byte_is_replaced_once() {
    let mut d = UTF8::new();
    assert_eq!(d.push(0x80), (Some(REPLACEMENT), None));
    assert!(!d.pending());
    assert_eq!(d.push(0xBF), (Some(REPLACEMENT), None));
    assert!(!d.pending());
}

#[test]
fn sequence_cut_short_by_ascii_is_replaced_once() {
    let mut d = UTF8::new();
    d.push(0xE2);
    d.push(0x82);
    assert_eq!(d.push(b'x'), (Some(REPLACEMENT), Some('x')));
    assert!(!d.pending());
}

#[test]
fn sequence_cut_short_by_lead_byte_is_replaced_once() {
    let mut d = UTF8::new();
    d.push(0xE2);
    assert_eq!(d.push(0xC3), (Some(REPLACEMENT), Some(REPLACEMENT)));
    assert!(d.pending());
    assert_eq!(d.push(0xA9), (Some('\u{e9}'), None));
}

#[test]
fn sequence_cut_short_by_end_of_input_is_replaced_once() {
    assert_eq!(decode(&[b'a', 0xE2, 0x82]), "a\u{fffd}\u{fffd}");
    let mut d = UTF8::new();
    d.push(0xE2);
    d.push(0x82);
    assert!(d.pending());
}

#[test]
fn invalid_lead_bytes_start_nothing() {
    for b in [0xC0u8, 0xC1, 0xF5, 0xF8, 0xFF] {
        let mut d = UTF8::new();
        assert_eq!(d.push(b), (None, Some(REPLACEMENT)));
        assert!(!d.pending());
    }
}

#[test]
fn invalid_lead_byte_still_closes_what_was_pending() {
    let mut d = UTF8::new();
    d.push(0xC3);
    assert_eq!(d.push(0xFF), (Some(REPLACEMENT), Some(REPLACEMENT)));
    assert!(!d.pending());
}

#[test]
fn surrogate_is_replaced() {
    let mut d = UTF8::new();
    d.push(0xED);
    d.push(0xA0);
    assert_eq!(d.push(0x80), (Some(REPLACEMENT), None));
    assert!(!d.pending());
}

#[test]
fn value_above_the_last_scalar_is_replaced() {
    let mut d = UTF8::new();
    d.push(0xF4);
    d.push(0x90);
    d.push(0x80);
    assert_eq!(d.push(0x80), (Some(REPLACEMENT), None));
}

#[test]
fn overlong_three_byte_sequence_is_replaced() {
    let mut d = UTF8::new();
    d.push(0xE0);
    d.push(0x80);
    assert_eq!(d.push(0x80), (Some(REPLACEMENT), None));
    let mut d = UTF8::new();
    d.push(0xE0);
    d.push(0x9F);
    assert_eq!(d.push(0xBF), (Some(REPLACEMENT), None));
    let mut d = UTF8::new();
    d.push(0xE0);
    d.push(0xA0);
    assert_eq!(d.push(0x80), (Some('\u{800}'), None));
}

#[test]
fn overlong_four_byte_sequence_is_replaced() {
    let mut d = UTF8::new();
    d.push(0xF0);
    d.push(0x8F);
    d.push(0xBF);
    assert_eq!(d.push(0xBF), (Some(REPLACEMENT), None));
    let mut d = UTF8::new();
    d.push(0xF0);
    d.push(0x90);
    d.push(0x80);
    assert_eq!(d.push(0x80), (Some('\u{10000}'), None));
}

#[test]
fn smallest_and_largest_of_each_length() {
    assert_eq!(decode(&[0xC2, 0x80]), "\u{fffd}\u{80}");
    assert_eq!(decode(&[0xDF, 0xBF]), "\u{fffd}\u{7ff}");
    assert_eq!(decode(&[0xEF, 0xBF, 0xBF]), "\u{fffd}\u{ffff}");
    assert_eq!(decode(&[0xF4, 0x8F, 0xBF, 0xBF]), "\u{fffd}\u{10ffff}");
}

#[test]
fn output_is_bounded_by_bytes_and_lead_bytes() {
    for a in 0u16..=255 {
        for b in 0u16..=255 {
            for c in [0x41u8, 0x80, 0xBF, 0xC3, 0xE2, 0xF0, 0xFF] {
                let bytes = [a as u8, b as u8, c];
                let leads = bytes.iter().filter(|&&x| x >= 0xC0).count();
                assert!(decode(&bytes).chars().count() <= bytes.len() + leads);
            }
        }
    }
}

#[test]
fn output_reaches_the_bound() {
    assert_eq!(decode(&[0xC3, 0xC3]), "\u{fffd}\u{fffd}\u{fffd}\u{fffd}");
    assert_eq!(decode(&[0xC3, b'a']), "\u{fffd}\u{fffd}a");
}
