//! The scan engine: primitive parsers over a byte cursor.
//!
//! Every primitive reads through the cursor and gives back the one byte it
//! read too far, so what it leaves behind is stated as the input with the
//! consumed bytes taken off the front of the line.

use crate::input::{
    lemma_consume_consume, lemma_line_len_bound, lemma_next_input, lemma_pending_input,
    lemma_push_input, lemma_scan_scan, Input,
};
use crate::number::{
    digit_values, digits_of, digits_value, fraction, lemma_accumulate, modulus, number, signed,
    Radix,
};
use crate::prefix::{common_prefix, lemma_common_prefix_is, lemma_run_is, lemma_run_props, run};
use crate::reading::{
    classification, ends_with_line_feed, is_negative, is_space, lemma_unsigned_len, reading,
    sign_len, spaces, text, unsigned, RealView, MINUS, PLUS, POINT,
};
use crate::stdin::{Stdin, NEWLINE};
use crate::utf8::{decode, feed, REPLACEMENT, UTF8};
use vstd::prelude::*;
use vstd::utf8::encode_utf8;

verus! {

/// Checks if `b` is a whitespace byte.
pub fn is_whitespace(b: u8) -> (r: bool)
    ensures
        r == is_space(b),
{
    match b {
        9 | 10 | 11 | 12 | 13 | 32 => true,
        _ => false,
    }
}

/// `String::push` from the standard library: appends `ch` to the end of
/// the string.
pub assume_specification[ String::push ](s: &mut String, ch: char)
    ensures
        final(s)@ == old(s)@.push(ch),
;

/// A number with a fraction, as the digits that were read. It stands for
/// `whole` plus the sum of `fraction[i] / base^(i + 1)`, negated when
/// `negative` is set.
#[derive(Debug, PartialEq, Eq)]
pub struct Real {
    /// Whether a minus sign came first.
    pub negative: bool,
    /// The radix of the digits.
    pub radix: Radix,
    /// The digits before the point, as a value modulo 2^64.
    pub whole: u64,
    /// The value of each digit behind the point, in order.
    pub fraction: Vec<u8>,
}

impl View for Real {
    type V = RealView;

    open spec fn view(&self) -> RealView {
        RealView {
            negative: self.negative,
            radix: self.radix,
            whole: self.whole,
            fraction: self.fraction@,
        }
    }
}

/// Scanner over one line of a byte source.
pub struct Scanner {
    drop_line: bool,
    stdin: Stdin,
}

/// A scanner over `source`. With `drop_line` the rest of the line is thrown
/// away when the scanner is finished.
pub fn stdin(source: Vec<u8>, drop_line: bool) -> (s: Scanner)
    ensures
        s@ == Input::of(source@),
        s.drops_line() == drop_line,
{
    let s = Scanner { drop_line, stdin: Stdin::new(source) };
    proof {
        lemma_line_len_bound(source@);
        assert(s@.line =~= Input::of(source@).line);
    }
    s
}

impl View for Scanner {
    type V = Input;

    closed spec fn view(&self) -> Input {
        self.stdin@.input()
    }
}

impl Scanner {
    /// Whether the rest of the line is thrown away at the end.
    pub closed spec fn drops_line(&self) -> bool {
        self.drop_line
    }

    /// Reads one byte.
    fn get(&mut self) -> (r: Option<u8>)
        ensures
            final(self).drop_line == old(self).drop_line,
            match r {
                Some(b) => {
                    &&& old(self)@.line.len() > 0
                    &&& b == old(self)@.line[0]
                    &&& final(self)@ == old(self)@.consume(1)
                    &&& final(self).stdin@.pushed is None
                    &&& !final(self).stdin@.done
                },
                None => old(self)@.line.len() == 0 && final(self)@ == old(self)@.peek(),
            },
    {
        proof {
            lemma_next_input(self.stdin@);
        }
        match self.stdin.next() {
            Ok(b) => Some(b),
            Err(_) => None,
        }
    }

    /// Gives back the byte that was just read.
    fn unget(&mut self, b: u8)
        requires
            old(self).stdin@.pushed is None,
            !old(self).stdin@.done,
        ensures
            final(self).drop_line == old(self).drop_line,
            final(self)@ == (Input { line: seq![b] + old(self)@.line, ..old(self)@ }),
    {
        proof {
            lemma_push_input(self.stdin@, b);
        }
        self.stdin.push(b);
    }

    /// Reads digits of `radix` for as long as they come.
    fn accumulate(&mut self, radix: Radix) -> (r: Option<u64>)
        ensures
            final(self).drops_line() == old(self).drops_line(),
            final(self)@ == old(self)@.scan(run(old(self)@.line, digits_of(radix))),
            r == number(
                radix,
                old(self)@.line.take(run(old(self)@.line, digits_of(radix)) as int),
            ),
    {
        let ghost start = self@;
        let ghost mut k: nat = 0;
        let mut ok = false;
        let mut res: u64 = 0;
        let base = radix.value();
        assert(start.consume(0) == start) by {
            assert(start.line.skip(0) == start.line);
        }
        assert(start.line.take(0) == Seq::<u8>::empty());
        loop
            invariant_except_break
                self@ == start.consume(k),
            invariant
                self.drop_line == old(self).drop_line,
                k <= start.line.len(),
                forall|i: int| 0 <= i < k ==> digits_of(radix)(#[trigger] start.line[i]),
                ok == (k > 0),
                res == digits_value(radix, start.line.take(k as int)) as int % modulus(),
                base == radix.base(),
            ensures
                k == run(start.line, digits_of(radix)),
                self@ == start.scan(k),
            decreases start.line.len() - k,
        {
            let next = match self.get() {
                Some(b) => b,
                None => {
                    proof {
                        lemma_run_is(start.line, digits_of(radix), k);
                    }
                    break ;
                },
            };
            assert(next == start.line[k as int]);
            match radix.digit(next) {
                Some(d) => {
                    proof {
                        lemma_accumulate(radix, start.line.take(k as int), next, res);
                        assert(start.line.take(k as int).push(next) == start.line.take(
                            k as int + 1,
                        ));
                        lemma_consume_consume(start, k, 1);
                        k = k + 1;
                    }
                    ok = true;
                    res = res.wrapping_mul(base).wrapping_add(d as u64);
                },
                None => {
                    self.unget(next);
                    proof {
                        lemma_run_is(start.line, digits_of(radix), k);
                        assert(seq![next] + start.line.skip(k as int).skip(1) == start.line.skip(
                            k as int,
                        ));
                    }
                    break ;
                },
            }
        }
        if ok {
            Some(res)
        } else {
            None
        }
    }

    /// Parses binary digits.
    pub fn binary(&mut self) -> (r: Option<u64>)
        ensures
            final(self).drops_line() == old(self).drops_line(),
            final(self)@ == old(self)@.scan(run(old(self)@.line, digits_of(Radix::Binary))),
            r == number(
                Radix::Binary,
                old(self)@.line.take(run(old(self)@.line, digits_of(Radix::Binary)) as int),
            ),
    {
        self.accumulate(Radix::Binary)
    }

    /// Parses octal digits.
    pub fn octal(&mut self) -> (r: Option<u64>)
        ensures
            final(self).drops_line() == old(self).drops_line(),
            final(self)@ == old(self)@.scan(run(old(self)@.line, digits_of(Radix::Octal))),
            r == number(
                Radix::Octal,
                old(self)@.line.take(run(old(self)@.line, digits_of(Radix::Octal)) as int),
            ),
    {
        self.accumulate(Radix::Octal)
    }

    /// Parses decimal digits.
    pub fn decimal(&mut self) -> (r: Option<u64>)
        ensures
            final(self).drops_line() == old(self).drops_line(),
            final(self)@ == old(self)@.scan(run(old(self)@.line, digits_of(Radix::Decimal))),
            r == number(
                Radix::Decimal,
                old(self)@.line.take(run(old(self)@.line, digits_of(Radix::Decimal)) as int),
            ),
    {
        self.accumulate(Radix::Decimal)
    }

    /// Parses hexadecimal digits.
    pub fn hexadecimal(&mut self) -> (r: Option<u64>)
        ensures
            final(self).drops_line() == old(self).drops_line(),
            final(self)@ == old(self)@.scan(run(old(self)@.line, digits_of(Radix::Hex))),
            r == number(
                Radix::Hex,
                old(self)@.line.take(run(old(self)@.line, digits_of(Radix::Hex)) as int),
            ),
    {
        self.accumulate(Radix::Hex)
    }

    /// Parses digits of the radix `ty`: the longest run of them at the
    /// front of the line. Yields their value modulo 2^64, or nothing when
    /// the line does not begin with a digit.
    pub fn digits(&mut self, ty: Radix) -> (r: Option<u64>)
        ensures
            final(self).drops_line() == old(self).drops_line(),
            final(self)@ == old(self)@.scan(run(old(self)@.line, digits_of(ty))),
            r == number(ty, old(self)@.line.take(run(old(self)@.line, digits_of(ty)) as int)),
    {
        match ty {
            Radix::Binary => self.binary(),
            Radix::Octal => self.octal(),
            Radix::Decimal => self.decimal(),
            Radix::Hex => self.hexadecimal(),
        }
    }

    /// Parses an unsigned integer including its prefix.
    pub fn unsigned_integer(&mut self) -> (r: Option<u64>)
        ensures
            final(self).drops_line() == old(self).drops_line(),
            final(self)@ == old(self)@.scan(unsigned(old(self)@.line).len),
            r == unsigned(old(self)@.line).value,
    {
        let ghost start = self@;
        let ghost class = classification(start.line);
        let (ty, zero) = self.classify();
        proof {
            lemma_run_props(start.line.skip(class.len as int), digits_of(class.radix));
            let n = run(start.line.skip(class.len as int), digits_of(class.radix));
            lemma_scan_scan(start, class.len, n);
            lemma_consume_consume(start, class.len, n);
        }
        match self.digits(ty) {
            Some(v) => Some(v),
            None => if zero {
                Some(0)
            } else {
                None
            },
        }
    }

    /// Returns the radix of the integer that follows and, for a decimal,
    /// whether one `0` has already been consumed.
    pub fn classify(&mut self) -> (r: (Radix, bool))
        ensures
            final(self).drops_line() == old(self).drops_line(),
            r.0 == classification(old(self)@.line).radix,
            r.1 == classification(old(self)@.line).zero,
            final(self)@ == if classification(old(self)@.line).len == 2 {
                old(self)@.consume(2)
            } else {
                old(self)@.scan(classification(old(self)@.line).len)
            },
    {
        let ghost start = self@;
        proof {
            lemma_consume_consume(start, 0, 0);
        }
        let first = match self.get() {
            Some(b) => b,
            None => {
                return (Radix::Decimal, false);
            },
        };
        if first != 0x30 {
            self.unget(first);
            assert(self@ == start) by {
                assert(seq![first] + start.line.skip(1) == start.line);
            }
            return (Radix::Decimal, false);
        }
        let second = match self.get() {
            Some(b) => b,
            None => {
                return (Radix::Decimal, true);
            },
        };
        proof {
            lemma_consume_consume(start, 1, 1);
        }
        if second == 0x78 || second == 0x58 {
            (Radix::Hex, false)
        } else if second == 0x6F || second == 0x4F {
            (Radix::Octal, false)
        } else if second == 0x62 || second == 0x42 {
            (Radix::Binary, false)
        } else {
            self.unget(second);
            assert(self@ == start.consume(1)) by {
                assert(seq![second] + start.line.skip(1).skip(1) == start.line.skip(1));
            }
            (Radix::Decimal, true)
        }
    }

    /// Parses the sign of the number that follows: `-1` for a minus sign,
    /// `1` for a plus sign or none.
    pub fn sign(&mut self) -> (r: i64)
        ensures
            final(self).drops_line() == old(self).drops_line(),
            r == if is_negative(old(self)@.line) {
                -1i64
            } else {
                1i64
            },
            final(self)@ == if sign_len(old(self)@.line) == 1 {
                old(self)@.consume(1)
            } else {
                old(self)@.scan(0)
            },
    {
        let ghost start = self@;
        proof {
            lemma_consume_consume(start, 0, 0);
        }
        match self.get() {
            None => 1,
            Some(b) => {
                if b == PLUS {
                    1
                } else if b == MINUS {
                    -1
                } else {
                    self.unget(b);
                    assert(self@ == start) by {
                        assert(seq![b] + start.line.skip(1) == start.line);
                    }
                    1
                }
            },
        }
    }

    /// Parses a signed integer: an optional sign, then an unsigned integer.
    pub fn signed_integer(&mut self) -> (r: Option<i64>)
        ensures
            final(self).drops_line() == old(self).drops_line(),
            final(self)@ == old(self)@.scan(
                sign_len(old(self)@.line) + unsigned(
                    old(self)@.line.skip(sign_len(old(self)@.line) as int),
                ).len,
            ),
            r == match unsigned(old(self)@.line.skip(sign_len(old(self)@.line) as int)).value {
                Some(v) => Some(signed(is_negative(old(self)@.line), v)),
                None => None,
            },
    {
        let ghost start = self@;
        let sign = self.sign();
        proof {
            let s = sign_len(start.line);
            let rest = start.line.skip(s as int);
            lemma_unsigned_len(rest);
            lemma_scan_scan(start, s, unsigned(rest).len);
            lemma_consume_consume(start, s, unsigned(rest).len);
            lemma_consume_consume(start.consume(s), 0, 0);
        }
        match self.unsigned_integer() {
            Some(v) => Some(apply_sign(sign < 0, v)),
            None => None,
        }
    }

    /// Reads a word from the stream.
    ///
    /// A word is the longest sequence of bytes that holds no whitespace.
    /// Invalid UTF-8 sequences are replaced by U+FFFD. The whitespace byte
    /// that ends the word stays unread.
    pub fn word(&mut self) -> (res: String)
        ensures
            final(self).drops_line() == old(self).drops_line(),
            res@ == decode(old(self)@.line.take(run(old(self)@.line, text(true, false)) as int)),
            final(self)@ == old(self)@.scan(run(old(self)@.line, text(true, false))),
    {
        proof {
            lemma_run_props(self@.line, text(true, false));
        }
        self.string(true, false)
    }

    /// Reads a string from the stream: up to the end of the input, or, if
    /// `word` is set, up to the first whitespace byte, which stays unread,
    /// or, if `line` is set, up to the first line feed, which is consumed.
    /// The bytes read are decoded as UTF-8, with U+FFFD in place of what is
    /// malformed or cut short.
    pub fn string(&mut self, word: bool, line: bool) -> (res: String)
        ensures
            final(self).drops_line() == old(self).drops_line(),
            res@ == decode(old(self)@.line.take(run(old(self)@.line, text(word, line)) as int)),
            final(self)@ == if ends_with_line_feed(old(self)@.line, word, line) {
                old(self)@.consume(run(old(self)@.line, text(word, line)) + 1)
            } else {
                old(self)@.scan(run(old(self)@.line, text(word, line)))
            },
    {
        let ghost start = self@;
        let ghost mut k: nat = 0;
        let mut res = String::new();
        let mut utf8 = UTF8::new();
        proof {
            lemma_consume_consume(start, 0, 0);
            assert(start.line.take(0) == Seq::<u8>::empty());
        }
        loop
            invariant_except_break
                self@ == start.consume(k),
            invariant
                self.drop_line == old(self).drop_line,
                k <= start.line.len(),
                forall|i: int| 0 <= i < k ==> text(word, line)(#[trigger] start.line[i]),
                utf8@ == feed(None, start.line.take(k as int)).state,
                res@ == feed(None, start.line.take(k as int)).chars,
            ensures
                k == run(start.line, text(word, line)),
                self@ == if ends_with_line_feed(start.line, word, line) {
                    start.consume(k + 1)
                } else {
                    start.scan(k)
                },
            decreases start.line.len() - k,
        {
            let next = match self.get() {
                Some(b) => b,
                None => {
                    proof {
                        lemma_run_is(start.line, text(word, line), k);
                    }
                    break ;
                },
            };
            assert(next == start.line[k as int]);
            proof {
                lemma_consume_consume(start, k, 1);
            }
            if word && is_whitespace(next) {
                self.unget(next);
                proof {
                    lemma_run_is(start.line, text(word, line), k);
                    assert(seq![next] + start.line.skip(k as int).skip(1) == start.line.skip(
                        k as int,
                    ));
                }
                break ;
            } else if line && next == NEWLINE {
                proof {
                    lemma_run_is(start.line, text(word, line), k);
                }
                break ;
            }
            proof {
                assert(start.line.take(k as int + 1).drop_last() == start.line.take(k as int));
                k = k + 1;
            }
            match utf8.push(next) {
                (Some(c1), Some(c2)) => {
                    res.push(c1);
                    res.push(c2);
                },
                (Some(c1), None) => res.push(c1),
                (None, Some(c2)) => res.push(c2),
                _ => {},
            }
        }
        if utf8.pending() {
            res.push(REPLACEMENT);
        }
        res
    }

    /// Reads until the first byte that is not whitespace, which stays
    /// unread.
    pub fn whitespace(&mut self)
        ensures
            final(self).drops_line() == old(self).drops_line(),
            final(self)@ == old(self)@.scan(run(old(self)@.line, spaces())),
    {
        let ghost start = self@;
        let ghost mut k: nat = 0;
        proof {
            lemma_consume_consume(start, 0, 0);
        }
        loop
            invariant_except_break
                self@ == start.consume(k),
            invariant
                self.drop_line == old(self).drop_line,
                k <= start.line.len(),
                forall|i: int| 0 <= i < k ==> spaces()(#[trigger] start.line[i]),
            ensures
                self@ == start.scan(run(start.line, spaces())),
            decreases start.line.len() - k,
        {
            let b = match self.get() {
                Some(b) => b,
                None => {
                    proof {
                        lemma_run_is(start.line, spaces(), k);
                    }
                    break ;
                },
            };
            assert(b == start.line[k as int]);
            if !is_whitespace(b) {
                self.unget(b);
                proof {
                    lemma_run_is(start.line, spaces(), k);
                    assert(seq![b] + start.line.skip(k as int).skip(1) == start.line.skip(
                        k as int,
                    ));
                }
                break ;
            }
            proof {
                lemma_consume_consume(start, k, 1);
                k = k + 1;
            }
        }
    }

    /// Reads `lit` from the stream.
    ///
    /// Reads the longest initial sequence from the stream that is also an
    /// initial sequence of the bytes of `lit`. Returns `Some(())` if this
    /// sequence is all of `lit`, `None` otherwise. The bytes that matched
    /// are consumed in either case; the byte that did not match stays
    /// unread.
    pub fn literal(&mut self, lit: &str) -> (r: Option<()>)
        ensures
            final(self).drops_line() == old(self).drops_line(),
            r is Some <==> common_prefix(encode_utf8(lit@), old(self)@.line)
                == encode_utf8(lit@).len(),
            final(self)@ == if r is Some {
                old(self)@.consume(encode_utf8(lit@).len())
            } else {
                old(self)@.scan(common_prefix(encode_utf8(lit@), old(self)@.line))
            },
    {
        let ghost start = self@;
        let bytes = lit.as_bytes();
        let mut i: usize = 0;
        proof {
            lemma_consume_consume(start, 0, 0);
        }
        while i < bytes.len()
            invariant
                self.drop_line == old(self).drop_line,
                start == old(self)@,
                bytes@ == encode_utf8(lit@),
                i <= bytes.len(),
                i <= start.line.len(),
                self@ == start.consume(i as nat),
                forall|j: int| 0 <= j < i ==> bytes@[j] == start.line[j],
            decreases bytes.len() - i,
        {
            match self.get() {
                Some(c) => {
                    assert(c == start.line[i as int]);
                    if c != bytes[i] {
                        self.unget(c);
                        proof {
                            lemma_common_prefix_is(bytes@, start.line, i as nat);
                            assert(seq![c] + start.line.skip(i as int).skip(1)
                                == start.line.skip(i as int));
                        }
                        return None;
                    }
                },
                None => {
                    proof {
                        lemma_common_prefix_is(bytes@, start.line, i as nat);
                    }
                    return None;
                },
            }
            proof {
                lemma_consume_consume(start, i as nat, 1);
            }
            i += 1;
        }
        proof {
            lemma_common_prefix_is(bytes@, start.line, i as nat);
        }
        Some(())
    }

    /// Reads until the first line feed, which is consumed.
    pub fn line(&mut self) -> (res: String)
        ensures
            final(self).drops_line() == old(self).drops_line(),
            res@ == decode(old(self)@.line.take(run(old(self)@.line, text(false, true)) as int)),
            final(self)@ == if ends_with_line_feed(old(self)@.line, false, true) {
                old(self)@.consume(run(old(self)@.line, text(false, true)) + 1)
            } else {
                old(self)@.scan(run(old(self)@.line, text(false, true)))
            },
    {
        self.string(false, true)
    }

    /// Reads digits of `radix` for as long as they come, and keeps their
    /// values.
    fn accumulate_inv(&mut self, radix: Radix) -> (r: Option<Vec<u8>>)
        ensures
            final(self).drops_line() == old(self).drops_line(),
            final(self)@ == old(self)@.scan(run(old(self)@.line, digits_of(radix))),
            match r {
                Some(v) => Some(v@) == fraction(
                    radix,
                    old(self)@.line.take(run(old(self)@.line, digits_of(radix)) as int),
                ),
                None => run(old(self)@.line, digits_of(radix)) == 0,
            },
    {
        let ghost start = self@;
        let ghost mut k: nat = 0;
        let mut res: Vec<u8> = Vec::new();
        proof {
            lemma_consume_consume(start, 0, 0);
        }
        loop
            invariant_except_break
                self@ == start.consume(k),
            invariant
                self.drop_line == old(self).drop_line,
                k <= start.line.len(),
                forall|i: int| 0 <= i < k ==> digits_of(radix)(#[trigger] start.line[i]),
                res@ == digit_values(radix, start.line.take(k as int)),
            ensures
                k == run(start.line, digits_of(radix)),
                self@ == start.scan(k),
            decreases start.line.len() - k,
        {
            let next = match self.get() {
                Some(b) => b,
                None => {
                    proof {
                        lemma_run_is(start.line, digits_of(radix), k);
                    }
                    break ;
                },
            };
            assert(next == start.line[k as int]);
            match radix.digit(next) {
                Some(d) => {
                    res.push(d);
                    proof {
                        lemma_consume_consume(start, k, 1);
                        k = k + 1;
                        assert(res@ =~= digit_values(radix, start.line.take(k as int)));
                    }
                },
                None => {
                    self.unget(next);
                    proof {
                        lemma_run_is(start.line, digits_of(radix), k);
                        assert(seq![next] + start.line.skip(k as int).skip(1) == start.line.skip(
                            k as int,
                        ));
                    }
                    break ;
                },
            }
        }
        if res.len() > 0 {
            Some(res)
        } else {
            None
        }
    }

    /// Parses binary digits after the point.
    pub fn binary_inv(&mut self) -> (r: Option<Vec<u8>>)
        ensures
            final(self).drops_line() == old(self).drops_line(),
            final(self)@ == old(self)@.scan(run(old(self)@.line, digits_of(Radix::Binary))),
            match r {
                Some(v) => Some(v@) == fraction(
                    Radix::Binary,
                    old(self)@.line.take(run(old(self)@.line, digits_of(Radix::Binary)) as int),
                ),
                None => run(old(self)@.line, digits_of(Radix::Binary)) == 0,
            },
    {
        self.accumulate_inv(Radix::Binary)
    }

    /// Parses octal digits after the point.
    pub fn octal_inv(&mut self) -> (r: Option<Vec<u8>>)
        ensures
            final(self).drops_line() == old(self).drops_line(),
            final(self)@ == old(self)@.scan(run(old(self)@.line, digits_of(Radix::Octal))),
            match r {
                Some(v) => Some(v@) == fraction(
                    Radix::Octal,
                    old(self)@.line.take(run(old(self)@.line, digits_of(Radix::Octal)) as int),
                ),
                None => run(old(self)@.line, digits_of(Radix::Octal)) == 0,
            },
    {
        self.accumulate_inv(Radix::Octal)
    }

    /// Parses decimal digits after the point.
    pub fn decimal_inv(&mut self) -> (r: Option<Vec<u8>>)
        ensures
            final(self).drops_line() == old(self).drops_line(),
            final(self)@ == old(self)@.scan(run(old(self)@.line, digits_of(Radix::Decimal))),
            match r {
                Some(v) => Some(v@) == fraction(
                    Radix::Decimal,
                    old(self)@.line.take(run(old(self)@.line, digits_of(Radix::Decimal)) as int),
                ),
                None => run(old(self)@.line, digits_of(Radix::Decimal)) == 0,
            },
    {
        self.accumulate_inv(Radix::Decimal)
    }

    /// Parses hexadecimal digits after the point.
    pub fn hexadecimal_inv(&mut self) -> (r: Option<Vec<u8>>)
        ensures
            final(self).drops_line() == old(self).drops_line(),
            final(self)@ == old(self)@.scan(run(old(self)@.line, digits_of(Radix::Hex))),
            match r {
                Some(v) => Some(v@) == fraction(
                    Radix::Hex,
                    old(self)@.line.take(run(old(self)@.line, digits_of(Radix::Hex)) as int),
                ),
                None => run(old(self)@.line, digits_of(Radix::Hex)) == 0,
            },
    {
        self.accumulate_inv(Radix::Hex)
    }

    /// Parses digits after the point in the radix `ty`: the longest run of
    /// them at the front of the line. Yields the value of each digit, in
    /// order, or nothing when the line does not begin with a digit. The
    /// fraction they write is the sum of `digit / base^(i + 1)`.
    pub fn digits_inv(&mut self, ty: Radix) -> (r: Option<Vec<u8>>)
        ensures
            final(self).drops_line() == old(self).drops_line(),
            final(self)@ == old(self)@.scan(run(old(self)@.line, digits_of(ty))),
            match r {
                Some(v) => Some(v@) == fraction(
                    ty,
                    old(self)@.line.take(run(old(self)@.line, digits_of(ty)) as int),
                ),
                None => run(old(self)@.line, digits_of(ty)) == 0,
            },
    {
        match ty {
            Radix::Binary => self.binary_inv(),
            Radix::Octal => self.octal_inv(),
            Radix::Decimal => self.decimal_inv(),
            Radix::Hex => self.hexadecimal_inv(),
        }
    }

    /// Parses a number with an optional sign, an optional radix prefix and
    /// an optional fraction behind a point. Yields nothing when neither a
    /// digit nor a lone `0` stands where the number should begin.
    pub fn float(&mut self) -> (r: Option<Real>)
        ensures
            final(self).drops_line() == old(self).drops_line(),
            final(self)@ == old(self)@.scan(reading(old(self)@.line).len),
            match r {
                Some(x) => reading(old(self)@.line).value == Some(x@),
                None => reading(old(self)@.line).value is None,
            },
    {
        let ghost start = self@;
        let ghost s = sign_len(start.line);
        let ghost rest = start.line.skip(s as int);
        let ghost class = classification(rest);
        let ghost body = rest.skip(class.len as int);
        let ghost n = run(body, digits_of(class.radix));
        let ghost k = s + class.len + n;
        proof {
            lemma_run_props(body, digits_of(class.radix));
            lemma_consume_consume(start, 0, 0);
            lemma_scan_scan(start, s, class.len);
            lemma_consume_consume(start, s, class.len);
            lemma_scan_scan(start, s + class.len, n);
            lemma_consume_consume(start, s + class.len, n);
            assert(body == start.line.skip((s + class.len) as int));
        }
        let negative = self.sign() < 0;
        let (ty, zero) = self.classify();
        assert(self@.line == body);
        let whole = match self.digits(ty) {
            Some(d) => d,
            None => {
                if zero {
                    0
                } else {
                    return None;
                }
            },
        };
        assert(self@ == start.scan(k));
        match self.get() {
            None => {
                return Some(Real { negative, radix: ty, whole, fraction: Vec::new() });
            },
            Some(b) => {
                if b != POINT {
                    self.unget(b);
                    assert(self@ == start.scan(k)) by {
                        assert(seq![b] + start.scan(k).line.skip(1) == start.scan(k).line);
                    }
                    return Some(Real { negative, radix: ty, whole, fraction: Vec::new() });
                }
            },
        }
        let ghost behind = start.line.skip(k as int + 1);
        proof {
            lemma_scan_scan(start, k, 1);
            lemma_run_props(behind, digits_of(class.radix));
            lemma_scan_scan(start, k + 1, run(behind, digits_of(class.radix)));
            lemma_consume_consume(start, k + 1, run(behind, digits_of(class.radix)));
            lemma_consume_consume(start.consume(k + 1), 0, 0);
        }
        assert(self@ == start.consume(k + 1));
        let fraction = match self.digits_inv(ty) {
            Some(d) => d,
            None => Vec::new(),
        };
        proof {
            let m = run(behind, digits_of(class.radix)) as int;
            assert(fraction@ =~= digit_values(class.radix, behind.take(m)));
        }
        Some(Real { negative, radix: ty, whole, fraction })
    }

    /// Ends the scan and hands back the bytes that were not consumed. A
    /// scanner that drops the line first reads on to the end of the line,
    /// line feed included.
    pub fn finish(self) -> (rest: Vec<u8>)
        ensures
            rest@ == if self.drops_line() {
                self@.scan(self@.line.len()).pending()
            } else {
                self@.pending()
            },
    {
        let mut this = self;
        if this.drop_line {
            let ghost start = this@;
            let ghost mut k: nat = 0;
            proof {
                lemma_consume_consume(start, 0, 0);
            }
            loop
                invariant_except_break
                    this@ == start.consume(k),
                invariant
                    k <= start.line.len(),
                ensures
                    this@ == start.scan(start.line.len()),
                decreases start.line.len() - k,
            {
                if this.get().is_none() {
                    break ;
                }
                proof {
                    lemma_consume_consume(start, k, 1);
                    k = k + 1;
                }
            }
        }
        proof {
            lemma_pending_input(this.stdin@);
        }
        this.stdin.into_rest()
    }
}

/// Reads `v` as a two's complement number and negates it if asked to, as
/// a multiplication by `-1` that wraps would.
fn apply_sign(negative: bool, v: u64) -> (r: i64)
    ensures
        r == signed(negative, v),
{
    let s: i64 = if v < 0x8000_0000_0000_0000 {
        v as i64
    } else {
        -((u64::MAX - v) as i64) - 1
    };
    if negative {
        0i64.wrapping_sub(s)
    } else {
        s
    }
}

} // verus!
