//! A cursor over a byte source that hands out one byte at a time, takes
//! one byte back, and ends with the current line.

use vstd::prelude::*;

verus! {

/// The line feed, which ends a cursor's input.
pub const NEWLINE: u8 = 10;

/// What a cursor is made of, as plain values.
pub struct Cursor {
    /// The byte that was pushed back, handed out before any other.
    pub pushed: Option<u8>,
    /// Whether the cursor has seen the end of its input.
    pub done: bool,
    /// The bytes of the source that have not been read.
    pub unread: Seq<u8>,
}

impl Cursor {
    /// One read: the cursor afterwards, and the byte handed out, if any.
    /// An exhausted cursor stays as it is. A pushed byte comes first. The
    /// end of the source, or a line feed read from it, exhausts the cursor.
    pub open spec fn next(self) -> (Cursor, Option<u8>) {
        if self.done {
            (self, None)
        } else if self.pushed is Some {
            (Cursor { pushed: None, ..self }, self.pushed)
        } else if self.unread.len() == 0 {
            (Cursor { done: true, ..self }, None)
        } else if self.unread[0] == NEWLINE {
            (Cursor { done: true, unread: self.unread.skip(1), ..self }, None)
        } else {
            (Cursor { unread: self.unread.skip(1), ..self }, Some(self.unread[0]))
        }
    }

    /// One byte pushed back: kept if the slot is free, dropped otherwise.
    pub open spec fn push(self, b: u8) -> Cursor {
        if self.pushed is None {
            Cursor { pushed: Some(b), ..self }
        } else {
            self
        }
    }

    /// Everything not yet consumed, the pushed byte first.
    pub open spec fn pending(self) -> Seq<u8> {
        match self.pushed {
            Some(b) => seq![b] + self.unread,
            None => self.unread,
        }
    }
}

/// Byte cursor with a single slot of pushback.
pub struct Stdin {
    source: Vec<u8>,
    pos: usize,
    pushed: Option<u8>,
    done: bool,
}

impl View for Stdin {
    type V = Cursor;

    closed spec fn view(&self) -> Cursor {
        Cursor {
            pushed: self.pushed,
            done: self.done,
            unread: if self.pos <= self.source.len() {
                self.source@.skip(self.pos as int)
            } else {
                Seq::empty()
            },
        }
    }
}

impl Stdin {
    /// A cursor at the start of `source`, with nothing pushed back.
    pub fn new(source: Vec<u8>) -> (s: Stdin)
        ensures
            s@ == (Cursor { pushed: None, done: false, unread: source@ }),
    {
        assert(source@.skip(0) == source@);
        Stdin { source, pos: 0, pushed: None, done: false }
    }

    /// Reads one byte, or reports the end of input with `Err`.
    pub fn next(&mut self) -> (r: Result<u8, ()>)
        ensures
            final(self)@ == old(self)@.next().0,
            match old(self)@.next().1 {
                Some(b) => r == Ok::<u8, ()>(b),
                None => r == Err::<u8, ()>(()),
            },
    {
        if self.done {
            return Err(());
        }
        match self.pushed {
            Some(b) => {
                self.pushed = None;
                return Ok(b);
            },
            None => {},
        }
        if self.pos >= self.source.len() {
            self.done = true;
            return Err(());
        }
        let b = self.source[self.pos];
        self.pos += 1;
        assert(old(self).source@.skip(old(self).pos as int).skip(1) == self.source@.skip(
            self.pos as int,
        ));
        if b == NEWLINE {
            self.done = true;
            Err(())
        } else {
            Ok(b)
        }
    }

    /// Gives `b` back, to be read again by the next call of `next`. A
    /// second byte given back before the first is read again is dropped.
    pub fn push(&mut self, b: u8)
        ensures
            final(self)@ == old(self)@.push(b),
    {
        if self.pushed.is_none() {
            self.pushed = Some(b);
        }
    }

    /// Whether the end of input was reached.
    pub fn done(&self) -> (d: bool)
        ensures
            d == self@.done,
    {
        self.done
    }

    /// Ends the cursor and hands back what it has not consumed, the pushed
    /// byte first.
    pub fn into_rest(self) -> (rest: Vec<u8>)
        ensures
            rest@ == self@.pending(),
    {
        let mut rest: Vec<u8> = Vec::new();
        match self.pushed {
            Some(b) => rest.push(b),
            None => {},
        }
        let ghost held = rest@;
        if self.pos > self.source.len() {
            return rest;
        }
        assert(rest@ == held + self.source@.subrange(self.pos as int, self.pos as int));
        let mut i: usize = self.pos;
        while i < self.source.len()
            invariant
                self.pos <= i <= self.source.len(),
                rest@ == held + self.source@.subrange(self.pos as int, i as int),
            decreases self.source.len() - i,
        {
            rest.push(self.source[i]);
            i += 1;
        }
        assert(self.source@.subrange(self.pos as int, i as int) == self.source@.skip(
            self.pos as int,
        ));
        rest
    }
}

/// Once exhausted, a cursor hands out nothing and stays exhausted,
/// whatever is pushed back.
pub proof fn lemma_exhausted_stays(c: Cursor, b: u8)
    requires
        c.done,
    ensures
        c.next() == (c, None::<u8>),
        c.push(b).done,
        c.push(b).next().1 is None,
{
}

/// A byte pushed back into the free slot of a live cursor is the next one
/// read, and reading it undoes the push.
pub proof fn lemma_push_then_next(c: Cursor, b: u8)
    requires
        !c.done,
        c.pushed is None,
    ensures
        c.push(b).next() == (c, Some(b)),
{
}

/// No more than one byte is held: a push into a taken slot changes
/// nothing.
pub proof fn lemma_second_push_dropped(c: Cursor, a: u8, b: u8)
    ensures
        c.push(a).push(b) == c.push(a),
{
}

} // verus!
