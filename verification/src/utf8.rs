//! Incremental UTF-8 decoding that never fails: malformed input is
//! answered with U+FFFD.
//!
//! The decoder is fed one byte at a time and answers each byte with up to
//! two characters. The first closes whatever sequence was in progress, the
//! second belongs to the byte itself.

use vstd::prelude::*;
use vstd::utf8::*;

verus! {

/// The character emitted in place of malformed input.
pub const REPLACEMENT: char = '\u{fffd}';

/// A multi-byte sequence whose lead byte has been seen and whose
/// continuation bytes have not all arrived.
pub struct Pending {
    /// Payload bits gathered so far.
    pub value: u32,
    /// Continuation bytes still expected; at least one.
    pub remaining: u32,
    /// Smallest scalar that needs a sequence of this length.
    pub floor: u32,
}

/// What one byte does to a decoder.
pub struct Step {
    pub state: Option<Pending>,
    pub first: Option<char>,
    pub second: Option<char>,
}

/// Number of bytes in the sequence that `b` starts, or `0` when `b`
/// cannot start one.
pub open spec fn lead_width(b: u8) -> nat {
    if 0xC2 <= b <= 0xDF {
        2
    } else if 0xE0 <= b <= 0xEF {
        3
    } else if 0xF0 <= b <= 0xF4 {
        4
    } else {
        0
    }
}

/// The state a lead byte leaves behind: nothing when it cannot start a
/// sequence.
pub open spec fn start(b: u8) -> Option<Pending> {
    if lead_width(b) == 2 {
        Some(Pending { value: leading_bits_width_2(b), remaining: 1, floor: 0x80 })
    } else if lead_width(b) == 3 {
        Some(Pending { value: leading_bits_width_3(b), remaining: 2, floor: 0x800 })
    } else if lead_width(b) == 4 {
        Some(Pending { value: leading_bits_width_4(b), remaining: 3, floor: 0x1_0000 })
    } else {
        None
    }
}

/// The character a completed sequence stands for. A value that is no
/// scalar, or that a shorter sequence could have carried, is replaced.
pub open spec fn finish(value: u32, floor: u32) -> char {
    if is_scalar(value) && value >= floor {
        value as char
    } else {
        REPLACEMENT
    }
}

/// The decoder's transition: the state after byte `b`, and the two
/// characters it is answered with.
pub open spec fn step(state: Option<Pending>, b: u8) -> Step {
    let cut = if state is Some {
        Some(REPLACEMENT)
    } else {
        None
    };
    if b < 0x80 {
        Step { state: None, first: cut, second: Some(b as char) }
    } else if b >= 0xC0 {
        Step { state: start(b), first: cut, second: Some(REPLACEMENT) }
    } else {
        match state {
            Some(p) => {
                let value = (p.value << 6) | continuation_bits(b);
                if p.remaining <= 1 {
                    Step { state: None, first: Some(finish(value, p.floor)), second: None }
                } else {
                    Step {
                        state: Some(
                            Pending {
                                value,
                                remaining: (p.remaining - 1) as u32,
                                floor: p.floor,
                            },
                        ),
                        first: None,
                        second: None,
                    }
                }
            },
            None => Step { state: None, first: Some(REPLACEMENT), second: None },
        }
    }
}

/// The characters of one answer, in order.
pub open spec fn emitted(first: Option<char>, second: Option<char>) -> Seq<char> {
    let a = match first {
        Some(c) => seq![c],
        None => Seq::<char>::empty(),
    };
    match second {
        Some(c) => a.push(c),
        None => a,
    }
}

/// A decoder's state after a run of bytes, with everything it emitted.
pub struct Run {
    pub state: Option<Pending>,
    pub chars: Seq<char>,
}

/// Feeds `bytes` in order to a decoder in `state`.
pub open spec fn feed(state: Option<Pending>, bytes: Seq<u8>) -> Run
    decreases bytes.len(),
{
    if bytes.len() == 0 {
        Run { state, chars: Seq::empty() }
    } else {
        let before = feed(state, bytes.drop_last());
        let s = step(before.state, bytes.last());
        Run { state: s.state, chars: before.chars + emitted(s.first, s.second) }
    }
}

/// What is owed when input ends: one replacement for a sequence left
/// incomplete.
pub open spec fn flush(state: Option<Pending>) -> Seq<char> {
    if state is Some {
        seq![REPLACEMENT]
    } else {
        Seq::empty()
    }
}

/// The text that a fresh decoder makes of `bytes`, end of input included.
pub open spec fn decode(bytes: Seq<u8>) -> Seq<char> {
    let run = feed(None, bytes);
    run.chars + flush(run.state)
}

/// The characters of a byte string in which every byte is ASCII.
pub open spec fn ascii_text(bytes: Seq<u8>) -> Seq<char> {
    Seq::new(bytes.len(), |i: int| bytes[i] as char)
}

/// Whether every byte of `bytes` is below `0x80`.
pub open spec fn all_ascii(bytes: Seq<u8>) -> bool {
    forall|i: int| 0 <= i < bytes.len() ==> bytes[i] < 0x80
}

/// `char::from_u32` from the standard library: the character with the
/// given scalar value, and `None` for a surrogate or a value above
/// U+10FFFF.
pub assume_specification[ char::from_u32 ](i: u32) -> (r: Option<char>)
    ensures
        r == (if is_scalar(i) {
            Some(i as char)
        } else {
            None::<char>
        }),
;

/// Incremental decoder. It holds at most one unfinished sequence.
pub struct UTF8 {
    cur: u32,
    rem: u32,
    min: u32,
}

impl View for UTF8 {
    type V = Option<Pending>;

    closed spec fn view(&self) -> Option<Pending> {
        if self.rem > 0 {
            Some(Pending { value: self.cur, remaining: self.rem, floor: self.min })
        } else {
            None
        }
    }
}

impl UTF8 {
    /// A decoder with nothing in progress.
    pub fn new() -> (d: UTF8)
        ensures
            d@ is None,
    {
        UTF8 { cur: 0, rem: 0, min: 0 }
    }

    /// Feeds one byte. The first slot closes what was in progress: a
    /// replacement for a sequence cut short or for a stray continuation
    /// byte, or the character of a sequence that `b` completes. The second
    /// slot belongs to `b` itself: the ASCII character it is, or a
    /// replacement marking a lead byte.
    pub fn push(&mut self, b: u8) -> (r: (Option<char>, Option<char>))
        ensures
            final(self)@ == step(old(self)@, b).state,
            r.0 == step(old(self)@, b).first,
            r.1 == step(old(self)@, b).second,
    {
        if b < 128 {
            if self.rem > 0 {
                self.rem = 0;
                (Some(REPLACEMENT), Some(b as char))
            } else {
                (None, Some(b as char))
            }
        } else if b >= 0xC0 {
            let cut = if self.rem > 0 {
                Some(REPLACEMENT)
            } else {
                None
            };
            self.rem = 0;
            if 0xC2 <= b && b <= 0xDF {
                self.rem = 1;
                self.cur = (b & 0x1F) as u32;
                self.min = 0x80;
            } else if 0xE0 <= b && b <= 0xEF {
                self.rem = 2;
                self.cur = (b & 0x0F) as u32;
                self.min = 0x800;
            } else if 0xF0 <= b && b <= 0xF4 {
                self.rem = 3;
                self.cur = (b & 0x07) as u32;
                self.min = 0x1_0000;
            }
            (cut, Some(REPLACEMENT))
        } else {
            if self.rem > 0 {
                self.rem -= 1;
                self.cur = self.cur << 6 | (b & 0x3F) as u32;
                if self.rem == 0 {
                    match char::from_u32(self.cur) {
                        Some(c) if self.cur >= self.min => (Some(c), None),
                        _ => (Some(REPLACEMENT), None),
                    }
                } else {
                    (None, None)
                }
            } else {
                (Some(REPLACEMENT), None)
            }
        }
    }

    /// Whether a sequence is in progress.
    pub fn pending(&self) -> (p: bool)
        ensures
            p == (self@ is Some),
    {
        self.rem > 0
    }
}

/// Feeding two runs one after the other is feeding their concatenation.
pub proof fn lemma_feed_concat(state: Option<Pending>, a: Seq<u8>, b: Seq<u8>)
    ensures
        feed(state, a + b).state == feed(feed(state, a).state, b).state,
        feed(state, a + b).chars == feed(state, a).chars + feed(feed(state, a).state, b).chars,
    decreases b.len(),
{
    if b.len() == 0 {
        assert(a + b == a);
    } else {
        assert((a + b).drop_last() == a + b.drop_last());
        lemma_feed_concat(state, a, b.drop_last());
    }
}

/// One byte, fed alone, is one step.
pub proof fn lemma_feed_one(state: Option<Pending>, b: u8)
    ensures
        feed(state, seq![b]).state == step(state, b).state,
        feed(state, seq![b]).chars == emitted(step(state, b).first, step(state, b).second),
{
    assert(seq![b].drop_last() == Seq::<u8>::empty());
    reveal_with_fuel(feed, 2);
}

/// Whatever is malformed is answered with one replacement, in the first
/// slot of the byte that ends it: a continuation byte that continues
/// nothing, a sequence cut short by a byte that is no continuation byte,
/// and a sequence that is complete and stands for no character. A sequence
/// cut short by the end of input is owed one replacement, too.
pub proof fn lemma_malformed_units(state: Option<Pending>, b: u8)
    ensures
        state is None && is_continuation_byte(b) ==> step(state, b) == (Step {
            state: None,
            first: Some(REPLACEMENT),
            second: None,
        }),
        state is Some && !is_continuation_byte(b) ==> step(state, b).first == Some(REPLACEMENT),
        state is Some && is_continuation_byte(b) && state->0.remaining <= 1 ==> {
            let value = (state->0.value << 6) | continuation_bits(b);
            &&& step(state, b).state is None
            &&& step(state, b).second is None
            &&& step(state, b).first == Some(finish(value, state->0.floor))
            &&& !(is_scalar(value) && value >= state->0.floor) ==> step(state, b).first == Some(
                REPLACEMENT,
            )
        },
        state is Some && is_continuation_byte(b) && state->0.remaining > 1 ==> emitted(
            step(state, b).first,
            step(state, b).second,
        ).len() == 0,
        flush(state).len() == if state is Some {
            1nat
        } else {
            0nat
        },
{
}

/// Number of bytes of `bytes` that are lead bytes by their bit pattern.
pub open spec fn leads(bytes: Seq<u8>) -> nat
    decreases bytes.len(),
{
    if bytes.len() == 0 {
        0
    } else if bytes.last() >= 0xC0 {
        leads(bytes.drop_last()) + 1
    } else {
        leads(bytes.drop_last())
    }
}

/// Decoding yields at most one character for each byte, and one mark more
/// for each lead byte. So whatever is malformed is answered with no more
/// than one replacement for each of its bytes.
pub proof fn lemma_decode_len(bytes: Seq<u8>)
    ensures
        decode(bytes).len() <= bytes.len() + leads(bytes),
    decreases bytes.len(),
{
    lemma_feed_len(bytes);
}

proof fn lemma_feed_len(bytes: Seq<u8>)
    ensures
        feed(None, bytes).chars.len() + flush(feed(None, bytes).state).len() <= bytes.len()
            + leads(bytes),
    decreases bytes.len(),
{
    if bytes.len() > 0 {
        lemma_feed_len(bytes.drop_last());
    }
}

/// ASCII bytes are valid UTF-8, and the text they encode is the bytes
/// themselves, read as characters.
pub proof fn lemma_ascii_is_utf8(bytes: Seq<u8>)
    requires
        all_ascii(bytes),
    ensures
        valid_utf8(bytes),
        decode_utf8(bytes) == ascii_text(bytes),
    decreases bytes.len(),
{
    if bytes.len() > 0 {
        let rest = pop_first_scalar(bytes);
        assert(rest == bytes.subrange(1, bytes.len() as int));
        lemma_ascii_is_utf8(rest);
        let b = bytes[0];
        assert(b & 0x7F == b) by (bit_vector)
            requires
                b < 0x80,
        ;
        assert(decode_utf8(bytes) == seq![decode_first_scalar(bytes) as char] + decode_utf8(rest));
        assert(decode_utf8(bytes) =~= ascii_text(bytes));
    }
}

/// A decoder that has nothing in progress passes ASCII through unchanged
/// and ends with nothing in progress.
pub proof fn lemma_feed_ascii(bytes: Seq<u8>)
    requires
        all_ascii(bytes),
    ensures
        feed(None, bytes).state is None,
        feed(None, bytes).chars == ascii_text(bytes),
    decreases bytes.len(),
{
    if bytes.len() > 0 {
        lemma_feed_ascii(bytes.drop_last());
        assert(feed(None, bytes).chars =~= ascii_text(bytes));
    } else {
        assert(feed(None, bytes).chars =~= ascii_text(bytes));
    }
}

/// Decoding valid UTF-8 that holds single-byte characters only gives back
/// the text that the bytes encode.
pub proof fn lemma_decode_ascii(bytes: Seq<u8>)
    requires
        valid_utf8(bytes),
        all_ascii(bytes),
    ensures
        decode(bytes) == decode_utf8(bytes),
{
    lemma_ascii_is_utf8(bytes);
    lemma_feed_ascii(bytes);
}

/// The text with a replacement in front of every character that takes
/// more than one byte: the mark that its lead byte is answered with.
pub open spec fn marked(chars: Seq<char>) -> Seq<char>
    decreases chars.len(),
{
    if chars.len() == 0 {
        Seq::empty()
    } else if (chars[0] as u32) < 0x80 {
        seq![chars[0]] + marked(chars.drop_first())
    } else {
        seq![REPLACEMENT, chars[0]] + marked(chars.drop_first())
    }
}

/// One byte more is one step more.
proof fn lemma_feed_push(state: Option<Pending>, bytes: Seq<u8>, b: u8)
    ensures
        feed(state, bytes.push(b)).state == step(feed(state, bytes).state, b).state,
        feed(state, bytes.push(b)).chars == feed(state, bytes).chars + emitted(
            step(feed(state, bytes).state, b).first,
            step(feed(state, bytes).state, b).second,
        ),
{
    assert(bytes.push(b).drop_last() == bytes);
}

/// A decoder with nothing in progress decodes the first character of
/// valid UTF-8, marks it if it takes more than one byte, and has nothing
/// in progress afterwards.
proof fn lemma_feed_first_scalar(bytes: Seq<u8>)
    requires
        valid_first_scalar(bytes),
    ensures
        feed(None, take_first_scalar(bytes)).state is None,
        feed(None, take_first_scalar(bytes)).chars == marked(
            seq![decode_first_scalar(bytes) as char],
        ),
{
    let first = take_first_scalar(bytes);
    let cp = decode_first_scalar(bytes);
    let c = cp as char;
    let b0 = bytes[0];
    assert(seq![c].drop_first() == Seq::<char>::empty());
    reveal_with_fuel(marked, 2);
    lemma_feed_one(None, b0);
    if is_leading_byte_width_1(b0) {
        assert(first == seq![b0]);
        assert(b0 & 0x7F == b0) by (bit_vector)
            requires
                b0 <= 0x7F,
        ;
        assert(feed(None, first).chars =~= marked(seq![c]));
    } else if is_leading_byte_width_2(b0) {
        let b1 = bytes[1];
        assert(first == seq![b0].push(b1));
        assert(b0 >= 0xC2 && cp <= 0x7FF) by (bit_vector)
            requires
                0xC0 <= b0 <= 0xDF,
                cp == (((b0 & 0x1F) as u32) << 6) | ((b1 & 0x3F) as u32),
                cp >= 0x80,
        ;
        lemma_feed_push(None, seq![b0], b1);
        assert(feed(None, first).chars =~= marked(seq![c]));
    } else if is_leading_byte_width_3(b0) {
        let b1 = bytes[1];
        let b2 = bytes[2];
        assert(first == seq![b0].push(b1).push(b2));
        let l = (b0 & 0x0F) as u32;
        let c1 = (b1 & 0x3F) as u32;
        let c2 = (b2 & 0x3F) as u32;
        assert((((l << 6) | c1) << 6) | c2 == (l << 12) | (c1 << 6) | c2) by (bit_vector);
        assert(cp <= 0xFFFF) by (bit_vector)
            requires
                cp == (((b0 & 0x0F) as u32) << 12) | (((b1 & 0x3F) as u32) << 6) | ((b2
                    & 0x3F) as u32),
        ;
        lemma_feed_push(None, seq![b0], b1);
        lemma_feed_push(None, seq![b0].push(b1), b2);
        assert(feed(None, first).chars =~= marked(seq![c]));
    } else {
        let b1 = bytes[1];
        let b2 = bytes[2];
        let b3 = bytes[3];
        assert(first == seq![b0].push(b1).push(b2).push(b3));
        let l = (b0 & 0x07) as u32;
        let c1 = (b1 & 0x3F) as u32;
        let c2 = (b2 & 0x3F) as u32;
        let c3 = (b3 & 0x3F) as u32;
        assert((((((l << 6) | c1) << 6) | c2) << 6) | c3 == (l << 18) | (c1 << 12) | (c2 << 6)
            | c3) by (bit_vector);
        assert(b0 <= 0xF4) by (bit_vector)
            requires
                0xF0 <= b0 <= 0xF7,
                cp == (((b0 & 0x07) as u32) << 18) | (((b1 & 0x3F) as u32) << 12) | (((b2
                    & 0x3F) as u32) << 6) | ((b3 & 0x3F) as u32),
                cp <= 0x10FFFF,
        ;
        lemma_feed_push(None, seq![b0], b1);
        lemma_feed_push(None, seq![b0].push(b1), b2);
        lemma_feed_push(None, seq![b0].push(b1).push(b2), b3);
        assert(feed(None, first).chars =~= marked(seq![c]));
    }
}

/// A decoder with nothing in progress decodes valid UTF-8 to the text
/// that the bytes encode, with a mark in front of every character that
/// takes more than one byte, and has nothing in progress afterwards.
pub proof fn lemma_feed_valid(bytes: Seq<u8>)
    requires
        valid_utf8(bytes),
    ensures
        feed(None, bytes).state is None,
        feed(None, bytes).chars == marked(decode_utf8(bytes)),
    decreases bytes.len(),
{
    if bytes.len() > 0 {
        let first = take_first_scalar(bytes);
        let rest = pop_first_scalar(bytes);
        let c = decode_first_scalar(bytes) as char;
        assert(bytes == first + rest);
        lemma_feed_first_scalar(bytes);
        lemma_feed_valid(rest);
        lemma_feed_concat(None, first, rest);
        let text = decode_utf8(bytes);
        assert(text == seq![c] + decode_utf8(rest));
        assert(text.drop_first() == decode_utf8(rest));
        reveal_with_fuel(marked, 2);
        assert(seq![c].drop_first() == Seq::<char>::empty());
        assert(marked(text) =~= marked(seq![c]) + marked(decode_utf8(rest)));
    }
}

/// Decoding valid UTF-8 gives back the text that the bytes encode, with
/// a mark in front of every character that takes more than one byte.
pub proof fn lemma_decode_valid(bytes: Seq<u8>)
    requires
        valid_utf8(bytes),
    ensures
        decode(bytes) == marked(decode_utf8(bytes)),
{
    lemma_feed_valid(bytes);
}

} // verus!
