//! What the primitive parsers read at the front of a line, as functions of
//! the bytes of the line.

use crate::number::{digit_values, digits_of, number, Radix, DIGIT_0};
use crate::prefix::{lemma_run_props, run};
use crate::stdin::NEWLINE;
use vstd::prelude::*;

verus! {

/// Whether `b` is a whitespace byte: tab, line feed, vertical tab, form
/// feed, carriage return or space.
pub open spec fn is_space(b: u8) -> bool {
    b == 9 || b == 10 || b == 11 || b == 12 || b == 13 || b == 32
}

/// The whitespace bytes.
pub open spec fn spaces() -> spec_fn(u8) -> bool {
    |b: u8| is_space(b)
}

/// The bytes that `string` takes into its text: with `word` every byte
/// but whitespace, with `line` every byte but the line feed.
pub open spec fn text(word: bool, line: bool) -> spec_fn(u8) -> bool {
    |b: u8| !(word && is_space(b)) && !(line && b == NEWLINE)
}

/// Whether the text that `string` reads from `line` is ended by a line feed
/// that is consumed with it, rather than by whitespace or by the end.
pub open spec fn ends_with_line_feed(bytes: Seq<u8>, word: bool, line: bool) -> bool {
    let n = run(bytes, text(word, line));
    n < bytes.len() && !word && line
}

/// The plus sign.
pub const PLUS: u8 = 0x2B;

/// The minus sign.
pub const MINUS: u8 = 0x2D;

/// The decimal point.
pub const POINT: u8 = 0x2E;

/// Number of bytes that an optional sign takes at the front of `line`.
pub open spec fn sign_len(line: Seq<u8>) -> nat {
    if line.len() > 0 && (line[0] == PLUS || line[0] == MINUS) {
        1
    } else {
        0
    }
}

/// Whether `line` begins with a minus sign.
pub open spec fn is_negative(line: Seq<u8>) -> bool {
    line.len() > 0 && line[0] == MINUS
}

/// The radix that the letter behind a leading `0` selects, if any.
pub open spec fn radix_letter(b: u8) -> Option<Radix> {
    if b == 0x78 || b == 0x58 {
        // x, X
        Some(Radix::Hex)
    } else if b == 0x6F || b == 0x4F {
        // o, O
        Some(Radix::Octal)
    } else if b == 0x62 || b == 0x42 {
        // b, B
        Some(Radix::Binary)
    } else {
        None
    }
}

/// How a number begins.
pub struct Class {
    /// The radix of the digits that follow.
    pub radix: Radix,
    /// Whether a lone `0` was taken, so that the number is zero if no
    /// digit follows.
    pub zero: bool,
    /// Number of bytes taken: 2 for a prefix, 1 for a lone `0`, else 0.
    pub len: nat,
}

/// Reads the front of `line` as the beginning of a number: `0x`, `0o` or
/// `0b` in either case select a radix, a `0` followed by anything else is
/// taken alone, and everything else is left for the decimal digits.
pub open spec fn classification(line: Seq<u8>) -> Class {
    if line.len() >= 2 && line[0] == DIGIT_0 && radix_letter(line[1]) is Some {
        Class { radix: radix_letter(line[1]).unwrap(), zero: false, len: 2 }
    } else if line.len() >= 1 && line[0] == DIGIT_0 {
        Class { radix: Radix::Decimal, zero: true, len: 1 }
    } else {
        Class { radix: Radix::Decimal, zero: false, len: 0 }
    }
}

/// An unsigned integer at the front of a line.
pub struct Unsigned {
    /// The number, if there is one.
    pub value: Option<u64>,
    /// Number of bytes that belong to it.
    pub len: nat,
}

/// Reads the front of `line` as an unsigned integer with an optional radix
/// prefix. A lone `0` that no digit follows is the number zero.
pub open spec fn unsigned(line: Seq<u8>) -> Unsigned {
    let class = classification(line);
    let rest = line.skip(class.len as int);
    let n = run(rest, digits_of(class.radix));
    Unsigned {
        value: match number(class.radix, rest.take(n as int)) {
            Some(v) => Some(v),
            None => if class.zero {
                Some(0u64)
            } else {
                None
            },
        },
        len: class.len + n,
    }
}

/// A `Real` as a value.
pub struct RealView {
    pub negative: bool,
    pub radix: Radix,
    pub whole: u64,
    pub fraction: Seq<u8>,
}

/// A number with a fraction at the front of a line.
pub struct Reading {
    /// The number, if there is one.
    pub value: Option<RealView>,
    /// Number of bytes that belong to it.
    pub len: nat,
}

/// Reads the front of `line` as a number with a fraction: sign, prefix and
/// digits as for an integer, then, if a point follows, the point and the
/// digits behind it.
pub open spec fn reading(line: Seq<u8>) -> Reading {
    let s = sign_len(line);
    let class = classification(line.skip(s as int));
    let body = line.skip(s as int).skip(class.len as int);
    let n = run(body, digits_of(class.radix));
    let k = s + class.len + n;
    let whole = match number(class.radix, body.take(n as int)) {
        Some(v) => v,
        None => 0u64,
    };
    if n == 0 && !class.zero {
        Reading { value: None, len: k }
    } else if k < line.len() && line[k as int] == POINT {
        let behind = line.skip(k as int + 1);
        let m = run(behind, digits_of(class.radix));
        Reading {
            value: Some(
                RealView {
                    negative: is_negative(line),
                    radix: class.radix,
                    whole,
                    fraction: digit_values(class.radix, behind.take(m as int)),
                },
            ),
            len: k + 1 + m,
        }
    } else {
        Reading {
            value: Some(
                RealView {
                    negative: is_negative(line),
                    radix: class.radix,
                    whole,
                    fraction: Seq::empty(),
                },
            ),
            len: k,
        }
    }
}

/// An unsigned integer is no longer than the line it begins.
pub proof fn lemma_unsigned_len(line: Seq<u8>)
    ensures
        unsigned(line).len <= line.len(),
{
    let class = classification(line);
    lemma_run_props(line.skip(class.len as int), digits_of(class.radix));
}

} // verus!
