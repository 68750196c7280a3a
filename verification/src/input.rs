//! What a scanner still has before it, as a value: the readable rest of the
//! current line, and what lies behind it.

use crate::stdin::{Cursor, NEWLINE};
use vstd::prelude::*;

verus! {

/// The input a scanner works on.
///
/// `line` holds the bytes that reads will hand out, in order. `tail` holds
/// what follows them in the source, beginning with the line feed that ends
/// the line, if there is one. Once `done` is set nothing is readable any
/// more and `line` is empty.
pub struct Input {
    pub line: Seq<u8>,
    pub tail: Seq<u8>,
    pub done: bool,
}

impl Input {
    /// The input after `n` bytes were read and kept.
    pub open spec fn consume(self, n: nat) -> Input
        recommends
            n <= self.line.len(),
    {
        Input { line: self.line.skip(n as int), ..self }
    }

    /// The input after a read that is not kept: if a byte is there it is
    /// given back, and nothing changes. If the line is at its end, the read
    /// swallows the line feed and ends the input.
    pub open spec fn peek(self) -> Input {
        if self.done || self.line.len() > 0 {
            self
        } else {
            Input {
                line: self.line,
                tail: if self.tail.len() > 0 {
                    self.tail.skip(1)
                } else {
                    self.tail
                },
                done: true,
            }
        }
    }

    /// The input after `n` bytes were read and kept, and the byte behind
    /// them was looked at.
    pub open spec fn scan(self, n: nat) -> Input
        recommends
            n <= self.line.len(),
    {
        self.consume(n).peek()
    }

    /// Every byte that has not been consumed.
    pub open spec fn pending(self) -> Seq<u8> {
        self.line + self.tail
    }

    /// The input that a source presents before anything is read.
    pub open spec fn of(source: Seq<u8>) -> Input {
        let n = line_len(source);
        Input { line: source.take(n as int), tail: source.skip(n as int), done: false }
    }
}

/// Number of bytes before the first line feed, or the length of `bytes`
/// when there is none.
pub open spec fn line_len(bytes: Seq<u8>) -> nat
    decreases bytes.len(),
{
    if bytes.len() == 0 || bytes[0] == NEWLINE {
        0
    } else {
        1 + line_len(bytes.skip(1))
    }
}

impl Cursor {
    /// The input that this cursor stands for.
    pub open spec fn input(self) -> Input {
        if self.done {
            Input { line: Seq::empty(), tail: self.pending(), done: true }
        } else {
            let n = line_len(self.unread);
            let held = match self.pushed {
                Some(b) => seq![b],
                None => Seq::empty(),
            };
            Input {
                line: held + self.unread.take(n as int),
                tail: self.unread.skip(n as int),
                done: false,
            }
        }
    }
}

/// `line_len` never exceeds the length.
pub proof fn lemma_line_len_bound(bytes: Seq<u8>)
    ensures
        line_len(bytes) <= bytes.len(),
    decreases bytes.len(),
{
    if bytes.len() > 0 && bytes[0] != NEWLINE {
        lemma_line_len_bound(bytes.skip(1));
    }
}

/// No byte before the first line feed is a line feed.
pub proof fn lemma_no_line_feed(bytes: Seq<u8>)
    ensures
        forall|i: int| 0 <= i < line_len(bytes) ==> #[trigger] bytes[i] != NEWLINE,
    decreases bytes.len(),
{
    if bytes.len() > 0 && bytes[0] != NEWLINE {
        let rest = bytes.skip(1);
        lemma_line_len_bound(rest);
        lemma_no_line_feed(rest);
        assert forall|i: int| 0 <= i < line_len(bytes) implies #[trigger] bytes[i] != NEWLINE by {
            if i > 0 {
                assert(bytes[i] == rest[i - 1]);
            }
        }
    }
}

/// A read that hands out a byte hands out the first byte of the line and
/// consumes it. A read that fails has looked behind the line.
pub proof fn lemma_next_input(c: Cursor)
    ensures
        c.next().1 is Some <==> c.input().line.len() > 0,
        c.next().1 is Some ==> {
            &&& c.next().1 == Some(c.input().line[0])
            &&& c.next().0.input() == c.input().consume(1)
            &&& c.next().0.pushed is None
            &&& !c.next().0.done
        },
        c.next().1 is None ==> c.next().0.input() == c.input().peek(),
{
    lemma_line_len_bound(c.unread);
    if c.done {
    } else if c.pushed is Some {
        assert(c.next().0.input().line == c.input().consume(1).line);
    } else if c.unread.len() == 0 || c.unread[0] == NEWLINE {
        let after = c.next().0.input();
        let peeked = c.input().peek();
        assert(after.line =~= peeked.line);
        assert(after.tail =~= peeked.tail);
    } else {
        let rest = c.unread.skip(1);
        let n = line_len(rest);
        lemma_line_len_bound(rest);
        assert(rest.take(n as int) == c.unread.take(n as int + 1).skip(1));
        assert(rest.skip(n as int) == c.unread.skip(n as int + 1));
        assert(c.next().0.input().line == c.input().consume(1).line);
    }
}

/// A byte pushed back into a free slot of a live cursor becomes the first
/// byte of the line.
pub proof fn lemma_push_input(c: Cursor, b: u8)
    requires
        c.pushed is None,
        !c.done,
    ensures
        c.push(b).input() == (Input { line: seq![b] + c.input().line, ..c.input() }),
{
}

/// Consuming in two steps is consuming the sum.
pub proof fn lemma_consume_consume(s: Input, a: nat, b: nat)
    requires
        a + b <= s.line.len(),
    ensures
        s.consume(a).consume(b) == s.consume(a + b),
        s.consume(0) == s,
{
    assert(s.line.skip(a as int).skip(b as int) == s.line.skip((a + b) as int));
    assert(s.line.skip(0) == s.line);
}

/// Looking behind `a` bytes leaves the line without them, and a second
/// look further on is one look from the start.
pub proof fn lemma_scan_scan(s: Input, a: nat, b: nat)
    requires
        a + b <= s.line.len(),
    ensures
        s.scan(a).line == s.line.skip(a as int),
        s.scan(a).scan(b) == s.scan(a + b),
        b > 0 ==> s.scan(a).consume(b) == s.consume(a + b),
{
    lemma_consume_consume(s, a, b);
    lemma_consume_consume(s.scan(a), 0, 0);
}

/// A cursor and the input it stands for hold the same unconsumed bytes.
pub proof fn lemma_pending_input(c: Cursor)
    ensures
        c.input().pending() == c.pending(),
{
    lemma_line_len_bound(c.unread);
    let n = line_len(c.unread) as int;
    assert(c.unread.take(n) + c.unread.skip(n) == c.unread);
    assert(c.input().pending() =~= c.pending());
}

/// Nothing is lost at the start: what a source presents is the source.
pub proof fn lemma_of_pending(source: Seq<u8>)
    ensures
        Input::of(source).pending() == source,
        Input::of(source).tail.len() > 0 ==> Input::of(source).tail[0] == NEWLINE,
        forall|i: int|
            0 <= i < Input::of(source).line.len() ==> Input::of(source).line[i] != NEWLINE,
{
    lemma_line_len_bound(source);
    lemma_no_line_feed(source);
    lemma_line_ends(source);
    let n = line_len(source) as int;
    assert(source.take(n) + source.skip(n) == source);
}

/// Behind the line stands a line feed or nothing.
proof fn lemma_line_ends(bytes: Seq<u8>)
    ensures
        line_len(bytes) < bytes.len() ==> bytes[line_len(bytes) as int] == NEWLINE,
    decreases bytes.len(),
{
    if bytes.len() > 0 && bytes[0] != NEWLINE {
        let rest = bytes.skip(1);
        lemma_line_len_bound(rest);
        lemma_line_ends(rest);
    }
}

/// Reading takes bytes off the front and nothing else: what is pending
/// after `n` bytes were read is what was pending without its first `n`
/// bytes, and a look behind the end of the line takes the one byte that
/// ends the line, if there is one.
pub proof fn lemma_pending_after(s: Input, n: nat)
    requires
        n <= s.line.len(),
    ensures
        s.consume(n).pending() == s.pending().skip(n as int),
        s.scan(n).pending() == if !s.done && n == s.line.len() && s.tail.len() > 0 {
            s.pending().skip(n as int + 1)
        } else {
            s.pending().skip(n as int)
        },
{
    assert(s.consume(n).pending() =~= s.pending().skip(n as int));
    assert(s.scan(n).pending() =~= if !s.done && n == s.line.len() && s.tail.len() > 0 {
        s.pending().skip(n as int + 1)
    } else {
        s.pending().skip(n as int)
    });
}

} // verus!
