//! Console input scanning: a byte cursor with one byte of pushback, a
//! tolerant incremental UTF-8 decoder, primitive parsers for numbers and
//! text, and a compiler for `{type}` format patterns.
//!
//! - [`utf8`]: the decoder, and what it makes of valid and of malformed
//!   input.
//! - [`stdin`]: the byte cursor. [`input`]: what a cursor has before it.
//! - [`number`], [`reading`], [`prefix`]: the values of digits, and what
//!   the parsers read at the front of a line.
//! - [`scanner`]: the parsers themselves.
//! - [`util`], [`parser`]: tokens, and the compiler from a pattern to a
//!   list of scan operations.
//! - [`eval`]: running such a list against a scanner.

pub mod eval;
pub mod input;
pub mod number;
pub mod parser;
pub mod prefix;
pub mod reading;
pub mod scanner;
pub mod stdin;
pub mod utf8;
pub mod util;

pub use eval::{execute, readln, scan, scan_common, scanln, Scanned, Value};
pub use number::Radix;
pub use parser::{compile, Arg, Error, ErrorKind, IntType, Parser};
pub use scanner::{is_whitespace, stdin, Real, Scanner};
pub use stdin::Stdin;
pub use utf8::{REPLACEMENT, UTF8};
pub use util::{PeekN, Stream, Token};
