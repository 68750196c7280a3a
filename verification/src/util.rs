//! Tokens of a format pattern, and two small cursors: one with lookahead
//! over any iterator, one over a finished token list.

use crate::prefix::{lemma_run_is, run};
use std::collections::VecDeque;
use vstd::prelude::*;
use vstd::std_specs::iter::IteratorSpec;

verus! {

/// An iterator with a counter and unbounded lookahead.
///
/// What it will hand out is what it has buffered, followed by what its
/// iterator has left. The contracts speak of iterators that keep the
/// iterator laws of `vstd`; of others nothing is known.
pub struct PeekN<U, T> {
    intern: T,
    counter: usize,
    peeked: VecDeque<U>,
}

impl<U, T: Iterator<Item = U>> PeekN<U, T> {
    /// Items taken from the iterator and not yet handed out.
    pub closed spec fn buffered(&self) -> Seq<U> {
        self.peeked@
    }

    /// The iterator behind the buffer.
    pub closed spec fn source(&self) -> T {
        self.intern
    }

    /// Number of items handed out so far.
    pub closed spec fn count(&self) -> nat {
        self.counter as nat
    }

    /// The next item, with the number of items handed out before it. The
    /// count wraps around behind the largest `usize`.
    pub fn next(&mut self) -> (r: Option<(usize, U)>)
        ensures
            old(self).source().obeys_prophetic_iter_laws() ==> {
                let all = old(self).buffered() + old(self).source().remaining();
                &&& final(self).source().obeys_prophetic_iter_laws()
                &&& if all.len() > 0 {
                    &&& r == Some((old(self).count() as usize, all[0]))
                    &&& final(self).count() == if old(self).count() < usize::MAX {
                        old(self).count() + 1
                    } else {
                        0
                    }
                    &&& final(self).buffered() + final(self).source().remaining() == all.skip(1)
                } else {
                    &&& r is None
                    &&& final(self).count() == old(self).count()
                    &&& final(self).buffered() + final(self).source().remaining() == all
                }
            },
    {
        let ghost all = self.peeked@ + self.intern.remaining();
        let res = match self.peeked.pop_front() {
            Some(x) => Some(x),
            None => self.intern.next(),
        };
        match res {
            Some(x) => {
                assert(old(self).source().obeys_prophetic_iter_laws() ==> self.peeked@
                    + self.intern.remaining() =~= all.skip(1));
                let at = self.counter;
                self.counter = self.counter.wrapping_add(1);
                Some((at, x))
            },
            None => None,
        }
    }
}

impl<U: Copy, T: Iterator<Item = U>> PeekN<U, T> {
    /// A cursor at the start of `intern`, with nothing handed out.
    pub fn new(intern: T) -> (p: PeekN<U, T>)
        ensures
            p.buffered() == Seq::<U>::empty(),
            p.source() == intern,
            p.count() == 0,
    {
        PeekN { intern: intern, counter: 0, peeked: VecDeque::new() }
    }

    /// The item that the call of `next` after `n` further calls will hand
    /// out, or `None` if there are not that many. Nothing is handed out.
    pub fn peek(&mut self, n: usize) -> (r: Option<U>)
        ensures
            final(self).count() == old(self).count(),
            old(self).source().obeys_prophetic_iter_laws() ==> {
                let all = old(self).buffered() + old(self).source().remaining();
                &&& final(self).source().obeys_prophetic_iter_laws()
                &&& final(self).buffered() + final(self).source().remaining() == all
                &&& r == if n < all.len() {
                    Some(all[n as int])
                } else {
                    None
                }
            },
    {
        let ghost all = self.peeked@ + self.intern.remaining();
        let ghost lawful = self.intern.obeys_prophetic_iter_laws();
        while self.peeked.len() <= n
            invariant
                self.counter == old(self).counter,
                lawful == old(self).source().obeys_prophetic_iter_laws(),
                all == old(self).buffered() + old(self).source().remaining(),
                lawful ==> self.intern.obeys_prophetic_iter_laws(),
                lawful ==> self.peeked@ + self.intern.remaining() == all,
            decreases n + 1 - self.peeked.len(),
        {
            match self.intern.next() {
                Some(s) => {
                    self.peeked.push_back(s);
                    assert(lawful ==> self.peeked@ + self.intern.remaining() =~= all);
                },
                None => {
                    return None;
                },
            }
        }
        Some(self.peeked[n])
    }
}

/// A token of a format pattern.
#[derive(Clone, Copy, Debug, PartialEq, Eq, Structural)]
pub enum Token {
    /// `{`
    LeftBrace,
    /// `{{`
    LeftBraceBrace,
    /// `}`
    RightBrace,
    /// `}}`
    RightBraceBrace,
    /// A run of other characters, with its length.
    Literal(usize),
    /// `:`
    Colon,
    /// A run of spaces and tabs.
    Space,
}

/// The tokens that stand for blank space.
pub open spec fn space_tokens() -> spec_fn((usize, Token)) -> bool {
    |t: (usize, Token)| t.1 == Token::Space
}

/// A token list with a position in it.
pub struct Stream {
    tokens: Vec<(usize, Token)>,
    pos: usize,
}

/// A `Stream` as a value.
pub struct StreamView {
    /// The tokens, each with the offset at which it begins.
    pub tokens: Seq<(usize, Token)>,
    /// Number of tokens handed out.
    pub pos: nat,
}

impl StreamView {
    /// The tokens not yet handed out.
    pub open spec fn rest(self) -> Seq<(usize, Token)> {
        if self.pos <= self.tokens.len() {
            self.tokens.skip(self.pos as int)
        } else {
            Seq::empty()
        }
    }
}

impl View for Stream {
    type V = StreamView;

    closed spec fn view(&self) -> StreamView {
        StreamView { tokens: self.tokens@, pos: self.pos as nat }
    }
}

impl Stream {
    /// A stream at the start of `v`.
    pub fn new(v: Vec<(usize, Token)>) -> (s: Stream)
        ensures
            s@ == (StreamView { tokens: v@, pos: 0 }),
    {
        Stream { tokens: v, pos: 0 }
    }

    /// Moves past the space tokens at the current position.
    pub fn skip_spaces(&mut self)
        ensures
            final(self)@.tokens == old(self)@.tokens,
            final(self)@.pos == old(self)@.pos + run(old(self)@.rest(), space_tokens()),
    {
        let ghost start = self@;
        let ghost mut k: nat = 0;
        loop
            invariant
                self@.tokens == start.tokens,
                self@.pos == start.pos + k,
                k <= start.rest().len(),
                forall|i: int| 0 <= i < k ==> space_tokens()(#[trigger] start.rest()[i]),
            ensures
                k == run(start.rest(), space_tokens()),
            decreases start.rest().len() - k,
        {
            match self.next() {
                Some((_, Token::Space)) => {
                    proof {
                        k = k + 1;
                    }
                },
                Some(_) => {
                    self.step_back();
                    proof {
                        lemma_run_is(start.rest(), space_tokens(), k);
                    }
                    break ;
                },
                None => {
                    proof {
                        lemma_run_is(start.rest(), space_tokens(), k);
                    }
                    break ;
                },
            }
        }
    }

    /// Moves one token back, unless the stream is at its start.
    pub fn step_back(&mut self)
        ensures
            final(self)@.tokens == old(self)@.tokens,
            final(self)@.pos == if old(self)@.pos > 0 {
                (old(self)@.pos - 1) as nat
            } else {
                0
            },
    {
        if self.pos > 0 {
            self.pos -= 1;
        }
    }

    /// The token at the current position, which then moves on; `None` at
    /// the end.
    pub fn next(&mut self) -> (r: Option<(usize, Token)>)
        ensures
            final(self)@.tokens == old(self)@.tokens,
            old(self)@.rest().len() > 0 ==> r == Some(old(self)@.rest()[0]) && final(self)@.pos
                == old(self)@.pos + 1,
            old(self)@.rest().len() == 0 ==> r is None && final(self)@.pos == old(self)@.pos,
    {
        if self.pos < self.tokens.len() {
            self.pos += 1;
            Some(self.tokens[self.pos - 1])
        } else {
            None
        }
    }
}

} // verus!
