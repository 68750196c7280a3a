//! The compiler for format patterns: a tokenizer, and a parser that turns
//! the tokens into an ordered list of scan operations.
//!
//! A pattern is printable ASCII. `{{` and `}}` stand for single braces,
//! `{type}` is a placeholder, a run of spaces and tabs asks for any amount
//! of whitespace, and everything else is matched as it stands.

use crate::prefix::{lemma_run_is, lemma_run_props, run};
use crate::util::{space_tokens, PeekN, Stream, StreamView, Token};
use std::str::Chars;
use vstd::prelude::*;
use vstd::std_specs::iter::IteratorSpec;
use vstd::string::StringExecFns;
use vstd::string::StrSliceExecFns;
use vstd::utf8::{encode_utf8, is_ascii_chars};

verus! {

/// What is wrong with a pattern.
#[derive(Clone, Copy, Debug, PartialEq, Eq, Structural)]
pub enum ErrorKind {
    /// A character that is neither printable ASCII nor a tab.
    ExpectedAscii,
    /// A `}` that closes nothing, or something other than `}` where a
    /// placeholder should end.
    UnexpectedToken,
    /// Something other than a type behind `{`.
    ExpectedType,
    /// The pattern ends inside a placeholder.
    UnexpectedEof,
    /// A type that is not one of the known ones.
    UnknownType,
}

impl ErrorKind {
    /// What is wrong, in words.
    pub open spec fn text(self) -> Seq<char> {
        match self {
            ErrorKind::ExpectedAscii => "expected Ascii character"@,
            ErrorKind::UnexpectedToken => "Unexpected token"@,
            ErrorKind::ExpectedType => "Expected type"@,
            ErrorKind::UnexpectedEof => "Unexpected EOF"@,
            ErrorKind::UnknownType => "Unknown type"@,
        }
    }

    /// What is wrong, in words.
    pub fn message(self) -> (m: &'static str)
        ensures
            m@ == self.text(),
    {
        match self {
            ErrorKind::ExpectedAscii => "expected Ascii character",
            ErrorKind::UnexpectedToken => "Unexpected token",
            ErrorKind::ExpectedType => "Expected type",
            ErrorKind::UnexpectedEof => "Unexpected EOF",
            ErrorKind::UnknownType => "Unknown type",
        }
    }
}

/// A pattern that cannot be compiled: what is wrong, and where.
#[derive(Clone, Copy, Debug, PartialEq, Eq, Structural)]
pub struct Error {
    /// Offset into the pattern, in bytes, of what is wrong. For a pattern
    /// that ends inside a placeholder, the offset of the brace that opens
    /// it.
    pub offset: usize,
    pub kind: ErrorKind,
}

/// Whether `c` is a space or a tab.
pub open spec fn is_blank(c: char) -> bool {
    c == ' ' || c == '\t'
}

/// Whether `c` is printable ASCII.
pub open spec fn is_printable(c: char) -> bool {
    ' ' <= c <= '~'
}

/// Whether `c` is a character that belongs to a literal token.
pub open spec fn is_plain(c: char) -> bool {
    is_printable(c) && c != ' ' && c != '{' && c != '}' && c != ':'
}

/// The characters that form space tokens.
pub open spec fn blanks() -> spec_fn(char) -> bool {
    |c: char| is_blank(c)
}

/// The characters that form literal tokens.
pub open spec fn plains() -> spec_fn(char) -> bool {
    |c: char| is_plain(c)
}

/// The characters that a pattern may hold.
pub open spec fn accepted() -> spec_fn(char) -> bool {
    |c: char| is_blank(c) || is_printable(c)
}

/// A token with the number of characters it spans.
pub struct Span {
    pub token: Token,
    pub len: nat,
}

/// The token that begins at offset `i` of `text`: the longest one that
/// fits. Doubled braces go before single ones.
pub open spec fn token_at(text: Seq<char>, i: int) -> Span
    recommends
        0 <= i < text.len(),
{
    let c = text[i];
    let doubled = i + 1 < text.len() && text[i + 1] == c;
    if is_blank(c) {
        Span { token: Token::Space, len: 1 + run(text.skip(i + 1), blanks()) }
    } else if c == '{' && doubled {
        Span { token: Token::LeftBraceBrace, len: 2 }
    } else if c == '}' && doubled {
        Span { token: Token::RightBraceBrace, len: 2 }
    } else if c == ':' {
        Span { token: Token::Colon, len: 1 }
    } else if c == '{' {
        Span { token: Token::LeftBrace, len: 1 }
    } else if c == '}' {
        Span { token: Token::RightBrace, len: 1 }
    } else {
        let n = 1 + run(text.skip(i + 1), plains());
        Span { token: Token::Literal(n as usize), len: n }
    }
}

/// The tokens of `text` from offset `i` on, each with the offset at which
/// it begins.
pub open spec fn tokens_from(text: Seq<char>, i: int) -> Seq<(usize, Token)>
    decreases text.len() - i,
{
    if 0 <= i < text.len() {
        let span = token_at(text, i);
        proof {
            lemma_run_props(text.skip(i + 1), blanks());
            lemma_run_props(text.skip(i + 1), plains());
        }
        seq![(i as usize, span.token)] + tokens_from(text, i + span.len)
    } else {
        Seq::empty()
    }
}

/// The tokens of a pattern, or the first character that a pattern may not
/// hold.
pub open spec fn tokenization(text: Seq<char>) -> Result<Seq<(usize, Token)>, Error> {
    let good = run(text, accepted());
    if good < text.len() {
        Err(Error { offset: good as usize, kind: ErrorKind::ExpectedAscii })
    } else {
        Ok(tokens_from(text, 0))
    }
}

/// Every character takes at least one byte.
pub proof fn lemma_encode_len(chars: Seq<char>)
    ensures
        chars.len() <= encode_utf8(chars).len(),
    decreases chars.len(),
{
    if chars.len() > 0 {
        lemma_encode_len(chars.drop_first());
    }
}

fn blank(c: char) -> (r: bool)
    ensures
        r == is_blank(c),
{
    c == ' ' || c == '\t'
}

fn plain(c: char) -> (r: bool)
    ensures
        r == is_plain(c),
{
    ' ' <= c && c <= '~' && c != ' ' && c != '{' && c != '}' && c != ':'
}

/// Takes characters of kind `p` for as long as they come, and says how
/// many there were.
fn munch<'a>(chars: &mut PeekN<char, Chars<'a>>, space: bool, Ghost(text): Ghost<Seq<char>>) -> (n:
    usize)
    requires
        old(chars).source().obeys_prophetic_iter_laws(),
        old(chars).count() <= text.len() <= usize::MAX,
        old(chars).buffered() + old(chars).source().remaining() == text.skip(
            old(chars).count() as int,
        ),
    ensures
        final(chars).source().obeys_prophetic_iter_laws(),
        n == run(
            text.skip(old(chars).count() as int),
            if space {
                blanks()
            } else {
                plains()
            },
        ),
        final(chars).count() == old(chars).count() + n,
        final(chars).count() <= text.len(),
        final(chars).buffered() + final(chars).source().remaining() == text.skip(
            final(chars).count() as int,
        ),
{
    let ghost start = chars.count();
    let ghost rest = text.skip(start as int);
    let ghost p = if space {
        blanks()
    } else {
        plains()
    };
    let mut n: usize = 0;
    loop
        invariant
            chars.source().obeys_prophetic_iter_laws(),
            text.len() <= usize::MAX,
            start + n <= text.len(),
            rest == text.skip(start as int),
            chars.count() == start + n,
            chars.buffered() + chars.source().remaining() == text.skip(start + n),
            forall|i: int| 0 <= i < n ==> p(#[trigger] rest[i]),
            p == if space {
                blanks()
            } else {
                plains()
            },
        ensures
            n == run(rest, p),
        decreases text.len() - start - n,
    {
        match chars.peek(0) {
            Some(c) => {
                assert(c == rest[n as int]);
                let member = if space {
                    blank(c)
                } else {
                    plain(c)
                };
                if !member {
                    proof {
                        lemma_run_is(rest, p, n as nat);
                    }
                    break ;
                }
            },
            None => {
                proof {
                    lemma_run_is(rest, p, n as nat);
                }
                break ;
            },
        }
        chars.next();
        assert(text.skip(start + n).skip(1) == text.skip(start + n + 1));
        n += 1;
    }
    n
}

/// The width and signedness of an integer placeholder.
#[derive(Clone, Copy, Debug, PartialEq, Eq, Structural)]
pub enum IntType {
    I8,
    U8,
    I16,
    U16,
    I32,
    U32,
    I64,
    U64,
    I,
    U,
}

impl IntType {
    /// Whether the type is a signed one.
    pub open spec fn is_signed(self) -> bool {
        self == IntType::I8 || self == IntType::I16 || self == IntType::I32 || self
            == IntType::I64 || self == IntType::I
    }

    /// Whether the type is a signed one.
    pub fn signed(self) -> (r: bool)
        ensures
            r == self.is_signed(),
    {
        match self {
            IntType::I8 | IntType::I16 | IntType::I32 | IntType::I64 | IntType::I => true,
            IntType::U8 | IntType::U16 | IntType::U32 | IntType::U64 | IntType::U => false,
        }
    }
}

/// One scan operation.
#[derive(Debug, PartialEq, Eq)]
pub enum Arg {
    /// Text that the input must hold as it stands.
    Lit(String),
    /// Any amount of whitespace.
    Whitespace,
    /// An integer of the given type.
    Int(IntType),
    /// A floating-point number: of double precision if set, else single.
    Float(bool),
    /// A word.
    Strin,
}

/// An `Arg` as a value.
pub enum ArgView {
    Lit(Seq<char>),
    Whitespace,
    Int(IntType),
    Float(bool),
    Strin,
}

impl View for Arg {
    type V = ArgView;

    open spec fn view(&self) -> ArgView {
        match self {
            Arg::Lit(s) => ArgView::Lit(s@),
            Arg::Whitespace => ArgView::Whitespace,
            Arg::Int(t) => ArgView::Int(*t),
            Arg::Float(long) => ArgView::Float(*long),
            Arg::Strin => ArgView::Strin,
        }
    }
}

/// The operations of a list, each as a value.
pub open spec fn views(args: Seq<Arg>) -> Seq<ArgView> {
    args.map_values(|a: Arg| a@)
}

/// The operation that a type between braces asks for.
pub open spec fn type_tag(text: Seq<char>) -> Option<ArgView> {
    if text == seq!['i', '8'] {
        Some(ArgView::Int(IntType::I8))
    } else if text == seq!['u', '8'] {
        Some(ArgView::Int(IntType::U8))
    } else if text == seq!['i', '1', '6'] {
        Some(ArgView::Int(IntType::I16))
    } else if text == seq!['u', '1', '6'] {
        Some(ArgView::Int(IntType::U16))
    } else if text == seq!['i', '3', '2'] {
        Some(ArgView::Int(IntType::I32))
    } else if text == seq!['u', '3', '2'] {
        Some(ArgView::Int(IntType::U32))
    } else if text == seq!['i', '6', '4'] {
        Some(ArgView::Int(IntType::I64))
    } else if text == seq!['u', '6', '4'] {
        Some(ArgView::Int(IntType::U64))
    } else if text == seq!['i'] {
        Some(ArgView::Int(IntType::I))
    } else if text == seq!['u'] {
        Some(ArgView::Int(IntType::U))
    } else if text == seq!['f', '3', '2'] {
        Some(ArgView::Float(false))
    } else if text == seq!['f', '6', '4'] {
        Some(ArgView::Float(true))
    } else if text == seq!['s'] {
        Some(ArgView::Strin)
    } else {
        None
    }
}

/// Adds literal text to a list: to the literal at its end, if it ends with
/// one, else as a new literal.
pub open spec fn push_lit(args: Seq<ArgView>, text: Seq<char>) -> Seq<ArgView> {
    if args.len() > 0 && args.last() is Lit {
        args.drop_last().push(ArgView::Lit(args.last()->Lit_0 + text))
    } else {
        args.push(ArgView::Lit(text))
    }
}

/// A placeholder that was read.
pub struct Placeholder {
    /// The operation it asks for.
    pub arg: ArgView,
    /// Index of the first token behind its closing brace.
    pub next: nat,
}

/// Reads a placeholder whose opening brace, at offset `open`, stands just
/// before the token with index `pos`: spaces, a type, spaces, `}`.
pub open spec fn placeholder(
    text: Seq<char>,
    tokens: Seq<(usize, Token)>,
    pos: nat,
    open: usize,
) -> Result<Placeholder, Error>
    recommends
        pos <= tokens.len(),
{
    let at = pos + run(tokens.skip(pos as int), space_tokens());
    if at >= tokens.len() {
        Err(Error { offset: open, kind: ErrorKind::UnexpectedEof })
    } else {
        match tokens[at as int].1 {
            Token::Literal(len) => {
                let j = tokens[at as int].0;
                match type_tag(text.subrange(j as int, j + len)) {
                    None => Err(Error { offset: j, kind: ErrorKind::UnknownType }),
                    Some(arg) => {
                        let end = at + 1 + run(tokens.skip(at as int + 1), space_tokens());
                        if end >= tokens.len() {
                            Err(Error { offset: open, kind: ErrorKind::UnexpectedEof })
                        } else if tokens[end as int].1 == Token::RightBrace {
                            Ok(Placeholder { arg, next: end + 1 })
                        } else {
                            Err(
                                Error {
                                    offset: tokens[end as int].0,
                                    kind: ErrorKind::UnexpectedToken,
                                },
                            )
                        }
                    },
                }
            },
            _ => Err(Error { offset: tokens[at as int].0, kind: ErrorKind::ExpectedType }),
        }
    }
}

/// Parses the tokens from index `pos` on, adding to the operations `args`
/// that stand for the tokens before it.
pub open spec fn parse_from(
    text: Seq<char>,
    tokens: Seq<(usize, Token)>,
    pos: nat,
    args: Seq<ArgView>,
) -> Result<Seq<ArgView>, Error>
    decreases tokens.len() - pos,
{
    if pos >= tokens.len() {
        Ok(args)
    } else {
        let i = tokens[pos as int].0;
        match tokens[pos as int].1 {
            Token::Space => parse_from(text, tokens, pos + 1, args.push(ArgView::Whitespace)),
            Token::Literal(len) => parse_from(
                text,
                tokens,
                pos + 1,
                push_lit(args, text.subrange(i as int, i + len)),
            ),
            Token::LeftBraceBrace => parse_from(text, tokens, pos + 1, push_lit(args, seq!['{'])),
            Token::RightBraceBrace => parse_from(text, tokens, pos + 1, push_lit(args, seq!['}'])),
            Token::Colon => parse_from(text, tokens, pos + 1, push_lit(args, seq![':'])),
            Token::RightBrace => Err(Error { offset: i, kind: ErrorKind::UnexpectedToken }),
            Token::LeftBrace => match placeholder(text, tokens, pos + 1, i) {
                Ok(p) => parse_from(text, tokens, p.next, args.push(p.arg)),
                Err(e) => Err(e),
            },
        }
    }
}

/// The operations that a pattern compiles to, or what is wrong with it.
pub open spec fn compilation(text: Seq<char>) -> Result<Seq<ArgView>, Error> {
    match tokenization(text) {
        Ok(tokens) => parse_from(text, tokens, 0, Seq::empty()),
        Err(e) => Err(e),
    }
}

/// Where the tokens of a text lie: each begins inside the text, and a
/// literal ends inside it.
pub proof fn lemma_token_bounds(text: Seq<char>, i: int, k: int)
    requires
        0 <= i,
        text.len() <= usize::MAX,
        0 <= k < tokens_from(text, i).len(),
    ensures
        i <= tokens_from(text, i)[k].0 < text.len(),
        tokens_from(text, i)[k].1 matches Token::Literal(n) ==> 1 <= n && tokens_from(text, i)[k].0
            + n <= text.len(),
    decreases text.len() - i,
{
    lemma_run_props(text.skip(i + 1), blanks());
    lemma_run_props(text.skip(i + 1), plains());
    if k > 0 {
        let span = token_at(text, i);
        lemma_token_bounds(text, i + span.len, k - 1);
    }
}

/// Whether two strings hold the same text.
fn same(a: &str, b: &str) -> (r: bool)
    ensures
        r == (a@ == b@),
{
    String::from_str(a) == String::from_str(b)
}

/// The operation that the type `tag` asks for.
fn tag_arg(tag: &str) -> (r: Option<Arg>)
    ensures
        match r {
            Some(arg) => type_tag(tag@) == Some(arg@),
            None => type_tag(tag@) is None,
        },
{
    proof {
        reveal_strlit("i8");
        reveal_strlit("u8");
        reveal_strlit("i16");
        reveal_strlit("u16");
        reveal_strlit("i32");
        reveal_strlit("u32");
        reveal_strlit("i64");
        reveal_strlit("u64");
        reveal_strlit("i");
        reveal_strlit("u");
        reveal_strlit("f32");
        reveal_strlit("f64");
        reveal_strlit("s");
        assert("i8"@ =~= seq!['i', '8']);
        assert("u8"@ =~= seq!['u', '8']);
        assert("i16"@ =~= seq!['i', '1', '6']);
        assert("u16"@ =~= seq!['u', '1', '6']);
        assert("i32"@ =~= seq!['i', '3', '2']);
        assert("u32"@ =~= seq!['u', '3', '2']);
        assert("i64"@ =~= seq!['i', '6', '4']);
        assert("u64"@ =~= seq!['u', '6', '4']);
        assert("i"@ =~= seq!['i']);
        assert("u"@ =~= seq!['u']);
        assert("f32"@ =~= seq!['f', '3', '2']);
        assert("f64"@ =~= seq!['f', '6', '4']);
        assert("s"@ =~= seq!['s']);
    }
    if same(tag, "i8") {
        Some(Arg::Int(IntType::I8))
    } else if same(tag, "u8") {
        Some(Arg::Int(IntType::U8))
    } else if same(tag, "i16") {
        Some(Arg::Int(IntType::I16))
    } else if same(tag, "u16") {
        Some(Arg::Int(IntType::U16))
    } else if same(tag, "i32") {
        Some(Arg::Int(IntType::I32))
    } else if same(tag, "u32") {
        Some(Arg::Int(IntType::U32))
    } else if same(tag, "i64") {
        Some(Arg::Int(IntType::I64))
    } else if same(tag, "u64") {
        Some(Arg::Int(IntType::U64))
    } else if same(tag, "i") {
        Some(Arg::Int(IntType::I))
    } else if same(tag, "u") {
        Some(Arg::Int(IntType::U))
    } else if same(tag, "f32") {
        Some(Arg::Float(false))
    } else if same(tag, "f64") {
        Some(Arg::Float(true))
    } else if same(tag, "s") {
        Some(Arg::Strin)
    } else {
        None
    }
}

/// Adds the literal text `l` to `args`.
fn add_lit(args: &mut Vec<Arg>, l: &str)
    ensures
        views(final(args)@) == push_lit(views(old(args)@), l@),
{
    let ghost before = args@;
    match args.pop() {
        Some(Arg::Lit(mut v)) => {
            v.append(l);
            args.push(Arg::Lit(v));
            assert(views(args@) =~= push_lit(views(before), l@));
        },
        Some(x) => {
            args.push(x);
            assert(args@ =~= before);
            args.push(Arg::Lit(String::from_str(l)));
            assert(views(args@) =~= push_lit(views(before), l@));
        },
        None => {
            args.push(Arg::Lit(String::from_str(l)));
            assert(views(args@) =~= push_lit(views(before), l@));
        },
    }
}

/// A compiler for one pattern.
pub struct Parser<'a> {
    bytes: &'a str,
    stream: Stream,
    args: Vec<Arg>,
}

impl<'a> Parser<'a> {
    /// The pattern.
    pub closed spec fn text(&self) -> Seq<char> {
        self.bytes@
    }

    /// The tokens that were made of the pattern, and how far they were read.
    pub closed spec fn tokens(&self) -> StreamView {
        self.stream@
    }

    /// The operations made so far.
    pub closed spec fn args(&self) -> Seq<ArgView> {
        views(self.args@)
    }

    /// A compiler for the pattern `l`, with no tokens and no operations yet.
    pub fn new(l: &'a str) -> (p: Parser<'a>)
        ensures
            p.text() == l@,
            p.tokens() == (StreamView { tokens: Seq::empty(), pos: 0 }),
            p.args() == Seq::<ArgView>::empty(),
    {
        let p = Parser { bytes: l, stream: Stream::new(Vec::new()), args: Vec::new() };
        assert(views(p.args@) =~= Seq::<ArgView>::empty());
        p
    }

    /// The error of kind `kind` at offset `i`.
    fn err<T>(i: usize, kind: ErrorKind) -> (r: Result<T, Error>)
        ensures
            r == Err::<T, Error>(Error { offset: i, kind }),
    {
        Err(Error { offset: i, kind })
    }

    /// Splits the pattern into tokens. On success they replace the tokens
    /// held so far, and reading starts at the first. On failure nothing
    /// changes.
    pub fn tokenize(&mut self) -> (r: Result<(), Error>)
        ensures
            final(self).text() == old(self).text(),
            final(self).args() == old(self).args(),
            final(self).text().len() <= usize::MAX,
            match tokenization(old(self).text()) {
                Ok(tokens) => r is Ok && final(self).tokens() == (StreamView { tokens, pos: 0 }),
                Err(e) => r == Err::<(), Error>(e) && final(self).tokens() == old(self).tokens(),
            },
    {
        let text = self.bytes;
        let ghost all = text@;
        // A pattern has no more characters than bytes, so every offset fits.
        let _ = text.as_bytes().len();
        proof {
            lemma_encode_len(all);
            assert(all.skip(0) == all);
        }
        let mut tokens: Vec<(usize, Token)> = Vec::new();
        let mut chars = PeekN::new(text.chars());
        loop
            invariant
                all.len() <= usize::MAX,
                chars.source().obeys_prophetic_iter_laws(),
                chars.count() <= all.len(),
                chars.buffered() + chars.source().remaining() == all.skip(chars.count() as int),
                forall|j: int| 0 <= j < chars.count() ==> accepted()(#[trigger] all[j]),
                tokens@ + tokens_from(all, chars.count() as int) == tokens_from(all, 0),
                *self == *old(self),
                all == old(self).bytes@,
            ensures
                chars.count() == all.len(),
                forall|j: int| 0 <= j < all.len() ==> accepted()(#[trigger] all[j]),
                tokens@ == tokens_from(all, 0),
                *self == *old(self),
            decreases all.len() - chars.count(),
        {
            let ghost at = chars.count() as int;
            let ghost done = tokens@;
            let (i, b) = match chars.next() {
                Some(x) => x,
                None => {
                    assert(tokens@ + Seq::<(usize, Token)>::empty() == tokens@);
                    break ;
                },
            };
            assert(b == all[at] && i == at);
            assert(all.skip(at).skip(1) == all.skip(at + 1));
            let ghost span = token_at(all, at);
            if blank(b) {
                munch(&mut chars, true, Ghost(all));
                tokens.push((i, Token::Space));
                proof {
                    lemma_run_props(all.skip(at + 1), blanks());
                    assert forall|j: int| 0 <= j < chars.count() implies accepted()(
                        #[trigger] all[j],
                    ) by {
                        if j > at {
                            assert(all[j] == all.skip(at + 1)[j - at - 1]);
                        }
                    }
                }
            } else {
                if b < ' ' || b > '~' {
                    proof {
                        lemma_run_is(all, accepted(), at as nat);
                    }
                    return Self::err(i, ErrorKind::ExpectedAscii);
                }
                let ahead = chars.peek(0);
                if b == '{' && ahead == Some('{') {
                    chars.next();
                    tokens.push((i, Token::LeftBraceBrace));
                    assert(all.skip(at + 1).skip(1) == all.skip(at + 2));
                } else if b == '}' && ahead == Some('}') {
                    chars.next();
                    tokens.push((i, Token::RightBraceBrace));
                    assert(all.skip(at + 1).skip(1) == all.skip(at + 2));
                } else if b == ':' {
                    tokens.push((i, Token::Colon));
                } else if b == '{' {
                    tokens.push((i, Token::LeftBrace));
                } else if b == '}' {
                    tokens.push((i, Token::RightBrace));
                } else {
                    let n = munch(&mut chars, false, Ghost(all));
                    tokens.push((i, Token::Literal(n + 1)));
                    proof {
                        lemma_run_props(all.skip(at + 1), plains());
                        assert forall|j: int| 0 <= j < chars.count() implies accepted()(
                            #[trigger] all[j],
                        ) by {
                            if j > at {
                                assert(all[j] == all.skip(at + 1)[j - at - 1]);
                            }
                        }
                    }
                }
            }
            assert(chars.count() == at + span.len);
            assert(tokens@ == done.push((i, span.token)));
            assert(tokens@ + tokens_from(all, at + span.len) =~= done + tokens_from(all, at));
        }
        proof {
            lemma_run_is(all, accepted(), all.len());
        }
        self.stream = Stream::new(tokens);
        Ok(())
    }

    /// Compiles the pattern: splits it into tokens and makes the list of
    /// operations, which begins with those that the compiler already held.
    /// Literal text that follows literal text is joined to it.
    pub fn parse(self) -> (r: Result<Vec<Arg>, Error>)
        ensures
            match tokenization(self.text()) {
                Ok(tokens) => match parse_from(self.text(), tokens, 0, self.args()) {
                    Ok(args) => r is Ok && views(r.unwrap()@) == args,
                    Err(e) => r == Err::<Vec<Arg>, Error>(e),
                },
                Err(e) => r == Err::<Vec<Arg>, Error>(e),
            },
    {
        let mut this = self;
        match this.tokenize() {
            Ok(_) => {},
            Err(e) => {
                return Err(e);
            },
        }
        let ghost text = this.bytes@;
        let ghost tokens = this.stream@.tokens;
        let ghost goal = parse_from(text, tokens, 0, views(this.args@));
        proof {
            lemma_run_props(text, accepted());
            assert(is_ascii_chars(text)) by {
                assert forall|i: int| 0 <= i < text.len() implies '\0' <= #[trigger] text[i]
                    <= '\u{7f}' by {
                    assert(accepted()(text[i]));
                }
            }
        }
        loop
            invariant
                this.bytes@ == text,
                is_ascii_chars(text),
                text.len() <= usize::MAX,
                tokens == tokens_from(text, 0),
                this.stream@.tokens == tokens,
                this.stream@.pos <= tokens.len(),
                parse_from(text, tokens, this.stream@.pos, views(this.args@)) == goal,
                tokenization(self.text()) == Ok::<Seq<(usize, Token)>, Error>(tokens),
                goal == parse_from(self.text(), tokens, 0, self.args()),
            ensures
                goal == Ok::<Seq<ArgView>, Error>(views(this.args@)),
            decreases tokens.len() - this.stream@.pos,
        {
            let ghost pos = this.stream@.pos;
            let ghost before = views(this.args@);
            let (i, t) = match this.stream.next() {
                Some(t) => t,
                None => {
                    break ;
                },
            };
            assert((i, t) == tokens[pos as int]) by {
                assert(tokens.skip(pos as int)[0] == tokens[pos as int]);
            }
            proof {
                lemma_token_bounds(text, 0, pos as int);
            }
            match t {
                Token::Space => {
                    this.args.push(Arg::Whitespace);
                    assert(views(this.args@) =~= before.push(ArgView::Whitespace));
                },
                Token::Literal(len) => {
                    add_lit(&mut this.args, this.bytes.substring_ascii(i, i + len));
                },
                Token::LeftBraceBrace => {
                    proof {
                        reveal_strlit("{");
                        assert("{"@ =~= seq!['{']);
                    }
                    add_lit(&mut this.args, "{");
                },
                Token::RightBraceBrace => {
                    proof {
                        reveal_strlit("}");
                        assert("}"@ =~= seq!['}']);
                    }
                    add_lit(&mut this.args, "}");
                },
                Token::Colon => {
                    proof {
                        reveal_strlit(":");
                        assert(":"@ =~= seq![':']);
                    }
                    add_lit(&mut this.args, ":");
                },
                Token::RightBrace => {
                    return Self::err(i, ErrorKind::UnexpectedToken);
                },
                Token::LeftBrace => {
                    this.stream.skip_spaces();
                    let ghost at = this.stream@.pos;
                    proof {
                        lemma_run_props(tokens.skip(pos as int + 1), space_tokens());
                    }
                    let (j, len) = match this.stream.next() {
                        Some((j, Token::Literal(len))) => (j, len),
                        Some((j, _)) => {
                            assert(tokens.skip(at as int)[0] == tokens[at as int]);
                            return Self::err(j, ErrorKind::ExpectedType);
                        },
                        None => {
                            return Self::err(i, ErrorKind::UnexpectedEof);
                        },
                    };
                    assert((j, Token::Literal(len)) == tokens[at as int]) by {
                        assert(tokens.skip(at as int)[0] == tokens[at as int]);
                    }
                    proof {
                        lemma_token_bounds(text, 0, at as int);
                    }
                    let arg = match tag_arg(this.bytes.substring_ascii(j, j + len)) {
                        Some(arg) => arg,
                        None => {
                            return Self::err(j, ErrorKind::UnknownType);
                        },
                    };
                    this.args.push(arg);
                    assert(views(this.args@) =~= before.push(arg@));
                    this.stream.skip_spaces();
                    let ghost end = this.stream@.pos;
                    proof {
                        lemma_run_props(tokens.skip(at as int + 1), space_tokens());
                    }
                    match this.stream.next() {
                        Some((_, Token::RightBrace)) => {
                            assert(tokens.skip(end as int)[0] == tokens[end as int]);
                        },
                        None => {
                            return Self::err(i, ErrorKind::UnexpectedEof);
                        },
                        Some((k, _)) => {
                            assert(tokens.skip(end as int)[0] == tokens[end as int]);
                            return Self::err(k, ErrorKind::UnexpectedToken);
                        },
                    }
                },
            }
        }
        Ok(this.args)
    }
}

/// Compiles the pattern `format` into its list of scan operations.
pub fn compile(format: &str) -> (r: Result<Vec<Arg>, Error>)
    ensures
        match compilation(format@) {
            Ok(args) => r is Ok && views(r.unwrap()@) == args,
            Err(e) => r == Err::<Vec<Arg>, Error>(e),
        },
{
    Parser::new(format).parse()
}

/// Whether no literal stands directly behind another.
pub open spec fn merged(args: Seq<ArgView>) -> bool {
    forall|i: int| 0 <= i < args.len() - 1 ==> !(#[trigger] args[i] is Lit && args[i + 1] is Lit)
}

/// Parsing joins literal text: if no literal stood directly behind another
/// in the operations so far, none does in the result.
pub proof fn lemma_parse_merges(
    text: Seq<char>,
    tokens: Seq<(usize, Token)>,
    pos: nat,
    args: Seq<ArgView>,
)
    requires
        merged(args),
    ensures
        parse_from(text, tokens, pos, args) matches Ok(all) ==> merged(all),
    decreases tokens.len() - pos,
{
    if pos < tokens.len() {
        let i = tokens[pos as int].0;
        match tokens[pos as int].1 {
            Token::Space => {
                lemma_parse_merges(text, tokens, pos + 1, args.push(ArgView::Whitespace));
            },
            Token::Literal(len) => {
                lemma_push_lit_merges(args, text.subrange(i as int, i + len));
                lemma_parse_merges(
                    text,
                    tokens,
                    pos + 1,
                    push_lit(args, text.subrange(i as int, i + len)),
                );
            },
            Token::LeftBraceBrace => {
                lemma_push_lit_merges(args, seq!['{']);
                lemma_parse_merges(text, tokens, pos + 1, push_lit(args, seq!['{']));
            },
            Token::RightBraceBrace => {
                lemma_push_lit_merges(args, seq!['}']);
                lemma_parse_merges(text, tokens, pos + 1, push_lit(args, seq!['}']));
            },
            Token::Colon => {
                lemma_push_lit_merges(args, seq![':']);
                lemma_parse_merges(text, tokens, pos + 1, push_lit(args, seq![':']));
            },
            Token::RightBrace => {},
            Token::LeftBrace => {
                match placeholder(text, tokens, pos + 1, i) {
                    Ok(p) => {
                        assert(!(p.arg is Lit));
                        lemma_parse_merges(text, tokens, p.next, args.push(p.arg));
                    },
                    Err(_) => {},
                }
            },
        }
    }
}

/// Adding literal text puts no literal directly behind another.
proof fn lemma_push_lit_merges(args: Seq<ArgView>, text: Seq<char>)
    requires
        merged(args),
    ensures
        merged(push_lit(args, text)),
{
    let after = push_lit(args, text);
    assert forall|i: int| 0 <= i < after.len() - 1 implies !(#[trigger] after[i] is Lit && after[i
        + 1] is Lit) by {
        if i < args.len() - 1 {
            assert(!(args[i] is Lit && args[i + 1] is Lit));
        }
    }
}

/// In the operations that a pattern compiles to, no literal stands
/// directly behind another: literal text that is not parted by whitespace
/// or a placeholder is one operation.
pub proof fn lemma_compilation_merges(text: Seq<char>)
    ensures
        compilation(text) matches Ok(args) ==> merged(args),
{
    match tokenization(text) {
        Ok(tokens) => {
            lemma_parse_merges(text, tokens, 0, Seq::empty());
        },
        Err(_) => {},
    }
}

/// An error of the parser lies at the offset of a token.
proof fn lemma_parse_error_offset(
    text: Seq<char>,
    tokens: Seq<(usize, Token)>,
    pos: nat,
    args: Seq<ArgView>,
)
    requires
        forall|k: int| 0 <= k < tokens.len() ==> (#[trigger] tokens[k]).0 < text.len(),
    ensures
        parse_from(text, tokens, pos, args) matches Err(e) ==> e.offset < text.len(),
    decreases tokens.len() - pos,
{
    if pos < tokens.len() {
        let i = tokens[pos as int].0;
        match tokens[pos as int].1 {
            Token::Space => {
                lemma_parse_error_offset(text, tokens, pos + 1, args.push(ArgView::Whitespace));
            },
            Token::Literal(len) => {
                lemma_parse_error_offset(
                    text,
                    tokens,
                    pos + 1,
                    push_lit(args, text.subrange(i as int, i + len)),
                );
            },
            Token::LeftBraceBrace => {
                lemma_parse_error_offset(text, tokens, pos + 1, push_lit(args, seq!['{']));
            },
            Token::RightBraceBrace => {
                lemma_parse_error_offset(text, tokens, pos + 1, push_lit(args, seq!['}']));
            },
            Token::Colon => {
                lemma_parse_error_offset(text, tokens, pos + 1, push_lit(args, seq![':']));
            },
            Token::RightBrace => {},
            Token::LeftBrace => {
                match placeholder(text, tokens, pos + 1, i) {
                    Ok(p) => {
                        lemma_parse_error_offset(text, tokens, p.next, args.push(p.arg));
                    },
                    Err(_) => {},
                }
            },
        }
    }
}

/// The offset of an error counts bytes as well as characters: it lies
/// inside the pattern, and the characters before it take one byte each.
pub proof fn lemma_error_offset(text: Seq<char>)
    requires
        text.len() <= usize::MAX,
    ensures
        compilation(text) matches Err(e) ==> e.offset < text.len() && encode_utf8(
            text.take(e.offset as int),
        ).len() == e.offset,
{
    lemma_run_props(text, accepted());
    match tokenization(text) {
        Ok(tokens) => {
            assert forall|k: int| 0 <= k < tokens.len() implies (#[trigger] tokens[k]).0
                < text.len() by {
                lemma_token_bounds(text, 0, k);
            }
            lemma_parse_error_offset(text, tokens, 0, Seq::empty());
        },
        Err(_) => {},
    }
    if let Err(e) = compilation(text) {
        let before = text.take(e.offset as int);
        assert(is_ascii_chars(before)) by {
            assert forall|i: int| 0 <= i < before.len() implies '\0' <= #[trigger] before[i]
                <= '\u{7f}' by {
                assert(accepted()(text[i]));
            }
        }
        vstd::utf8::is_ascii_chars_encode_utf8(before);
    }
}

/// Runs collapse: among the tokens of text that a pattern may hold, no
/// space token stands directly behind another, and no literal token
/// directly behind another.
pub proof fn lemma_tokens_collapse(text: Seq<char>, i: int, k: int)
    requires
        0 <= i,
        run(text, accepted()) == text.len(),
        0 <= k,
        k + 1 < tokens_from(text, i).len(),
    ensures
        !(tokens_from(text, i)[k].1 is Space && tokens_from(text, i)[k + 1].1 is Space),
        !(tokens_from(text, i)[k].1 is Literal && tokens_from(text, i)[k + 1].1 is Literal),
    decreases text.len() - i,
{
    lemma_run_props(text, accepted());
    lemma_run_props(text.skip(i + 1), blanks());
    lemma_run_props(text.skip(i + 1), plains());
    let span = token_at(text, i);
    let next = i + span.len;
    if k > 0 {
        lemma_tokens_collapse(text, next, k - 1);
    } else {
        assert(tokens_from(text, next).len() > 0);
        assert(tokens_from(text, i)[1] == tokens_from(text, next)[0]);
        assert(accepted()(text[next]));
        if span.token is Space || span.token is Literal {
            assert(text[next] == text.skip(i + 1)[span.len - 1]);
        }
    }
}

/// The tokens tile the text: the first begins where tokenizing begins,
/// each is the longest token at its offset, and the next begins where it
/// ends.
pub proof fn lemma_tokens_tile(text: Seq<char>, i: int, k: int)
    requires
        0 <= i,
        text.len() <= usize::MAX,
        0 <= k < tokens_from(text, i).len(),
    ensures
        k == 0 ==> tokens_from(text, i)[k].0 == i,
        tokens_from(text, i)[k].1 == token_at(text, tokens_from(text, i)[k].0 as int).token,
        k + 1 < tokens_from(text, i).len() ==> tokens_from(text, i)[k + 1].0 == tokens_from(
            text,
            i,
        )[k].0 + token_at(text, tokens_from(text, i)[k].0 as int).len,
        k + 1 == tokens_from(text, i).len() ==> tokens_from(text, i)[k].0 + token_at(
            text,
            tokens_from(text, i)[k].0 as int,
        ).len == text.len(),
    decreases text.len() - i,
{
    lemma_run_props(text.skip(i + 1), blanks());
    lemma_run_props(text.skip(i + 1), plains());
    let span = token_at(text, i);
    let next = i + span.len;
    assert(tokens_from(text, i).len() == 1 + tokens_from(text, next).len());
    if k > 0 {
        lemma_tokens_tile(text, next, k - 1);
    } else if 1 < tokens_from(text, i).len() {
        assert(tokens_from(text, i)[1] == tokens_from(text, next)[0]);
    } else {
        assert(tokens_from(text, next).len() == 0);
        assert(next <= text.len());
    }
}

} // verus!
