//! Running a compiled pattern against a scanner: one optional value for
//! each placeholder, in order.

use crate::input::{lemma_line_len_bound, lemma_no_line_feed, Input};
use crate::number::{digits_value, modulus, number, signed, Radix};
use crate::parser::{compilation, compile, views, Arg, ArgView, Error, IntType};
use crate::prefix::{common_prefix, lemma_run_is, run};
use crate::reading::{
    is_negative, lemma_unsigned_len, reading, sign_len, spaces, text, unsigned, RealView,
};
use crate::scanner::{stdin, Real, Scanner};
use crate::utf8::decode;
use vstd::prelude::*;
use vstd::utf8::encode_utf8;

verus! {

impl IntType {
    /// The number of values of the type.
    pub open spec fn modulus(self) -> int {
        match self {
            IntType::I8 | IntType::U8 => 0x100,
            IntType::I16 | IntType::U16 => 0x1_0000,
            IntType::I32 | IntType::U32 => 0x1_0000_0000,
            IntType::I64 | IntType::U64 => 0x1_0000_0000_0000_0000,
            IntType::I | IntType::U => usize::MAX + 1,
        }
    }

    /// The value of the type that a cast makes of `v`: the one that differs
    /// from `v` by a multiple of the modulus.
    pub open spec fn wrap(self, v: int) -> int {
        let m = self.modulus();
        if self.is_signed() {
            (v + m / 2) % m - m / 2
        } else {
            v % m
        }
    }

    /// Casts an unsigned number to the type, as `as` does.
    pub fn cast(self, v: u64) -> (r: Value)
        ensures
            r@ == ValueView::Int(self, self.wrap(v as int)),
    {
        match self {
            IntType::I8 => {
                assert((v as i8) as int == ((v + 0x80) % 0x100) - 0x80) by (bit_vector);
                Value::I8(v as i8)
            },
            IntType::U8 => {
                assert(v as u8 == v % 0x100) by (bit_vector);
                Value::U8(v as u8)
            },
            IntType::I16 => {
                assert((v as i16) as int == ((v + 0x8000) % 0x1_0000) - 0x8000) by (bit_vector);
                Value::I16(v as i16)
            },
            IntType::U16 => {
                assert(v as u16 == v % 0x1_0000) by (bit_vector);
                Value::U16(v as u16)
            },
            IntType::I32 => {
                assert((v as i32) as int == ((v + 0x8000_0000) % 0x1_0000_0000) - 0x8000_0000)
                    by (bit_vector);
                Value::I32(v as i32)
            },
            IntType::U32 => {
                assert(v as u32 == v % 0x1_0000_0000) by (bit_vector);
                Value::U32(v as u32)
            },
            IntType::I64 => {
                assert((v as i64) as int == ((v + 0x8000_0000_0000_0000)
                    % 0x1_0000_0000_0000_0000) - 0x8000_0000_0000_0000) by (bit_vector);
                Value::I64(v as i64)
            },
            IntType::U64 => Value::U64(v),
            IntType::I => {
                if v <= isize::MAX as u64 {
                    Value::I(v as isize)
                } else if usize::BITS == 64 {
                    assert((v as i64) as int == ((v + 0x8000_0000_0000_0000)
                        % 0x1_0000_0000_0000_0000) - 0x8000_0000_0000_0000) by (bit_vector);
                    Value::I((v as i64) as isize)
                } else {
                    assert((v as i32) as int == ((v + 0x8000_0000) % 0x1_0000_0000)
                        - 0x8000_0000) by (bit_vector);
                    Value::I((v as i32) as isize)
                }
            },
            IntType::U => {
                if v <= usize::MAX as u64 {
                    Value::U(v as usize)
                } else {
                    assert(v as u32 == v % 0x1_0000_0000) by (bit_vector);
                    Value::U((v as u32) as usize)
                }
            },
        }
    }

    /// Casts a signed number to the type, as `as` does.
    pub fn cast_signed(self, v: i64) -> (r: Value)
        ensures
            r@ == ValueView::Int(self, self.wrap(v as int)),
    {
        match self {
            IntType::I8 => {
                assert((v as i8) as int == ((v + 0x80) % 0x100) - 0x80) by (bit_vector);
                Value::I8(v as i8)
            },
            IntType::U8 => {
                assert((v as u8) as int == v % 0x100) by (bit_vector);
                Value::U8(v as u8)
            },
            IntType::I16 => {
                assert((v as i16) as int == ((v + 0x8000) % 0x1_0000) - 0x8000) by (bit_vector);
                Value::I16(v as i16)
            },
            IntType::U16 => {
                assert((v as u16) as int == v % 0x1_0000) by (bit_vector);
                Value::U16(v as u16)
            },
            IntType::I32 => {
                assert((v as i32) as int == ((v + 0x8000_0000) % 0x1_0000_0000) - 0x8000_0000)
                    by (bit_vector);
                Value::I32(v as i32)
            },
            IntType::U32 => {
                assert((v as u32) as int == v % 0x1_0000_0000) by (bit_vector);
                Value::U32(v as u32)
            },
            IntType::I64 => Value::I64(v),
            IntType::U64 => {
                assert((v as u64) as int == v as int % 0x1_0000_0000_0000_0000int) by (bit_vector);
                Value::U64(v as u64)
            },
            IntType::I => {
                if isize::MIN as i64 <= v && v <= isize::MAX as i64 {
                    Value::I(v as isize)
                } else {
                    assert((v as i32) as int == ((v + 0x8000_0000) % 0x1_0000_0000)
                        - 0x8000_0000) by (bit_vector);
                    Value::I((v as i32) as isize)
                }
            },
            IntType::U => {
                if usize::BITS == 64 {
                    assert((v as u64) as int == v as int % 0x1_0000_0000_0000_0000int)
                        by (bit_vector);
                    Value::U((v as u64) as usize)
                } else {
                    assert((v as u32) as int == v % 0x1_0000_0000) by (bit_vector);
                    Value::U((v as u32) as usize)
                }
            },
        }
    }
}

/// What a placeholder yields.
#[derive(Debug, PartialEq, Eq)]
pub enum Value {
    I8(i8),
    U8(u8),
    I16(i16),
    U16(u16),
    I32(i32),
    U32(u32),
    I64(i64),
    U64(u64),
    I(isize),
    U(usize),
    /// A number to be held in single precision.
    F32(Real),
    /// A number to be held in double precision.
    F64(Real),
    /// A word.
    Str(String),
}

/// A `Value` as a value.
pub enum ValueView {
    /// An integer of the given type.
    Int(IntType, int),
    /// A number with a fraction: of double precision if set, else single.
    Float(bool, RealView),
    /// A word.
    Str(Seq<char>),
}

impl View for Value {
    type V = ValueView;

    open spec fn view(&self) -> ValueView {
        match self {
            Value::I8(v) => ValueView::Int(IntType::I8, *v as int),
            Value::U8(v) => ValueView::Int(IntType::U8, *v as int),
            Value::I16(v) => ValueView::Int(IntType::I16, *v as int),
            Value::U16(v) => ValueView::Int(IntType::U16, *v as int),
            Value::I32(v) => ValueView::Int(IntType::I32, *v as int),
            Value::U32(v) => ValueView::Int(IntType::U32, *v as int),
            Value::I64(v) => ValueView::Int(IntType::I64, *v as int),
            Value::U64(v) => ValueView::Int(IntType::U64, *v as int),
            Value::I(v) => ValueView::Int(IntType::I, *v as int),
            Value::U(v) => ValueView::Int(IntType::U, *v as int),
            Value::F32(x) => ValueView::Float(false, x@),
            Value::F64(x) => ValueView::Float(true, x@),
            Value::Str(s) => ValueView::Str(s@),
        }
    }
}

/// Whether an operation is a placeholder, which yields a value.
pub open spec fn is_placeholder(arg: ArgView) -> bool {
    arg is Int || arg is Float || arg is Strin
}

/// One empty slot for each placeholder among `args`.
pub open spec fn unset(args: Seq<ArgView>) -> Seq<Option<ValueView>>
    decreases args.len(),
{
    if args.len() == 0 {
        Seq::empty()
    } else if is_placeholder(args[0]) {
        seq![None] + unset(args.skip(1))
    } else {
        unset(args.skip(1))
    }
}

/// What a run leaves: the values, and the input behind them.
pub struct Outcome {
    /// One slot for each placeholder, in order.
    pub values: Seq<Option<ValueView>>,
    /// The input after the run.
    pub input: Input,
}

/// What the integer placeholder of type `t` reads at the front of a line:
/// a signed integer for a signed type, an unsigned one otherwise, cast to
/// the type; and the number of bytes that belong to it.
pub open spec fn integer(t: IntType, line: Seq<u8>) -> (Option<ValueView>, nat) {
    if t.is_signed() {
        let s = sign_len(line);
        let u = unsigned(line.skip(s as int));
        (
            match u.value {
                Some(v) => Some(ValueView::Int(t, t.wrap(signed(is_negative(line), v) as int))),
                None => None,
            },
            s + u.len,
        )
    } else {
        let u = unsigned(line);
        (
            match u.value {
                Some(v) => Some(ValueView::Int(t, t.wrap(v as int))),
                None => None,
            },
            u.len,
        )
    }
}

/// Runs the operations `args` in order on `input`.
///
/// A literal that does not match and an integer that is not there end the
/// run: the placeholders behind them stay unset. A floating-point number
/// that is not there leaves its slot unset and the run goes on.
pub open spec fn execution(args: Seq<ArgView>, input: Input) -> Outcome
    decreases args.len(),
{
    if args.len() == 0 {
        Outcome { values: Seq::empty(), input }
    } else {
        let rest = args.skip(1);
        match args[0] {
            ArgView::Lit(text) => {
                let bytes = encode_utf8(text);
                let m = common_prefix(bytes, input.line);
                if m == bytes.len() {
                    execution(rest, input.consume(m))
                } else {
                    Outcome { values: unset(rest), input: input.scan(m) }
                }
            },
            ArgView::Whitespace => execution(rest, input.scan(run(input.line, spaces()))),
            ArgView::Int(t) => {
                let (value, len) = integer(t, input.line);
                if value is Some {
                    let later = execution(rest, input.scan(len));
                    Outcome { values: seq![value] + later.values, input: later.input }
                } else {
                    Outcome { values: seq![None] + unset(rest), input: input.scan(len) }
                }
            },
            ArgView::Float(long) => {
                let r = reading(input.line);
                let value = match r.value {
                    Some(x) => Some(ValueView::Float(long, x)),
                    None => None,
                };
                let later = execution(rest, input.scan(r.len));
                Outcome { values: seq![value] + later.values, input: later.input }
            },
            ArgView::Strin => {
                let n = run(input.line, text(true, false));
                let later = execution(rest, input.scan(n));
                Outcome {
                    values: seq![Some(ValueView::Str(decode(input.line.take(n as int))))]
                        + later.values,
                    input: later.input,
                }
            },
        }
    }
}

/// The values of a list, each as a value.
pub open spec fn value_views(values: Seq<Option<Value>>) -> Seq<Option<ValueView>> {
    values.map_values(
        |v: Option<Value>|
            match v {
                Some(x) => Some(x@),
                None => None,
            },
    )
}

/// Runs the operations `args` in order on `scanner`, and returns one slot
/// for each placeholder among them.
pub fn execute(args: &Vec<Arg>, scanner: &mut Scanner) -> (values: Vec<Option<Value>>)
    ensures
        final(scanner).drops_line() == old(scanner).drops_line(),
        value_views(values@) == execution(views(args@), old(scanner)@).values,
        final(scanner)@ == execution(views(args@), old(scanner)@).input,
{
    let ghost all = views(args@);
    let ghost goal = execution(all, scanner@);
    let mut values: Vec<Option<Value>> = Vec::new();
    let mut i: usize = 0;
    let mut live = true;
    assert(all.skip(0) == all);
    assert(value_views(values@) =~= Seq::<Option<ValueView>>::empty());
    while i < args.len()
        invariant
            i <= args.len(),
            all == views(args@),
            scanner.drops_line() == old(scanner).drops_line(),
            live ==> value_views(values@) + execution(all.skip(i as int), scanner@).values
                == goal.values,
            live ==> execution(all.skip(i as int), scanner@).input == goal.input,
            !live ==> value_views(values@) + unset(all.skip(i as int)) == goal.values,
            !live ==> scanner@ == goal.input,
        decreases args.len() - i,
    {
        let ghost before = scanner@;
        let ghost done = value_views(values@);
        let ghost rest = all.skip(i as int + 1);
        assert(all.skip(i as int).skip(1) == rest);
        assert(all.skip(i as int)[0] == args@[i as int]@);
        if !live {
            match &args[i] {
                Arg::Int(_) | Arg::Float(_) | Arg::Strin => {
                    values.push(None);
                    assert(value_views(values@) =~= done.push(None));
                    assert(done.push(None) + unset(rest) =~= done + (seq![None] + unset(rest)));
                },
                _ => {},
            }
        } else {
            match &args[i] {
                Arg::Lit(v) => {
                    if scanner.literal(v.as_str()).is_none() {
                        live = false;
                    }
                },
                Arg::Whitespace => {
                    scanner.whitespace();
                },
                Arg::Int(ty) => {
                    proof {
                        lemma_unsigned_len(before.line);
                    }
                    let value = if ty.signed() {
                        match scanner.signed_integer() {
                            Some(v) => Some(ty.cast_signed(v)),
                            None => None,
                        }
                    } else {
                        match scanner.unsigned_integer() {
                            Some(v) => Some(ty.cast(v)),
                            None => None,
                        }
                    };
                    if value.is_none() {
                        live = false;
                    }
                    values.push(value);
                    assert(value_views(values@) =~= done.push(integer(*ty, before.line).0));
                    assert(done.push(integer(*ty, before.line).0) + unset(rest) =~= done + (
                    seq![integer(*ty, before.line).0] + unset(rest)));
                    assert(done.push(integer(*ty, before.line).0) + execution(
                        rest,
                        scanner@,
                    ).values =~= done + (seq![integer(*ty, before.line).0] + execution(
                        rest,
                        scanner@,
                    ).values));
                },
                Arg::Float(long) => {
                    let value = match scanner.float() {
                        Some(x) => Some(
                            if *long {
                                Value::F64(x)
                            } else {
                                Value::F32(x)
                            },
                        ),
                        None => None,
                    };
                    values.push(value);
                    let ghost slot = match reading(before.line).value {
                        Some(x) => Some(ValueView::Float(*long, x)),
                        None => None,
                    };
                    assert(value_views(values@) =~= done.push(slot));
                    assert(done.push(slot) + execution(rest, scanner@).values =~= done + (
                    seq![slot] + execution(rest, scanner@).values));
                },
                Arg::Strin => {
                    let word = scanner.word();
                    values.push(Some(Value::Str(word)));
                    let ghost slot = Some(
                        ValueView::Str(
                            decode(before.line.take(run(before.line, text(true, false)) as int)),
                        ),
                    );
                    assert(value_views(values@) =~= done.push(slot));
                    assert(done.push(slot) + execution(rest, scanner@).values =~= done + (
                    seq![slot] + execution(rest, scanner@).values));
                },
            }
        }
        i += 1;
    }
    assert(all.skip(i as int) =~= Seq::<ArgView>::empty());
    assert(value_views(values@) + Seq::<Option<ValueView>>::empty() == value_views(values@));
    values
}

/// What one scan yields.
#[derive(Debug, PartialEq, Eq)]
pub struct Scanned {
    /// One slot for each placeholder of the pattern, in order.
    pub values: Vec<Option<Value>>,
    /// The bytes of the source that were not consumed.
    pub rest: Vec<u8>,
}

/// The input that is handed back at the end of a scan: all that was not
/// consumed, or, if the line is dropped, what follows the line.
pub open spec fn leftover(input: Input, drop_line: bool) -> Seq<u8> {
    if drop_line {
        input.scan(input.line.len()).pending()
    } else {
        input.pending()
    }
}

/// Compiles `format` and runs it once on the first line of `source`. With
/// `drop_line` the rest of that line is thrown away afterwards.
pub fn scan_common(format: &str, source: Vec<u8>, drop_line: bool) -> (r: Result<Scanned, Error>)
    ensures
        match compilation(format@) {
            Ok(args) => {
                let outcome = execution(args, Input::of(source@));
                &&& r is Ok
                &&& value_views(r.unwrap().values@) == outcome.values
                &&& r.unwrap().rest@ == leftover(outcome.input, drop_line)
            },
            Err(e) => r == Err::<Scanned, Error>(e),
        },
{
    let args = match compile(format) {
        Ok(args) => args,
        Err(e) => {
            return Err(e);
        },
    };
    let mut pb = stdin(source, drop_line);
    let values = execute(&args, &mut pb);
    let rest = pb.finish();
    Ok(Scanned { values, rest })
}

/// Scans the first line of `source` with the pattern `format` and throws
/// the rest of the line away.
pub fn scanln(format: &str, source: Vec<u8>) -> (r: Result<Scanned, Error>)
    ensures
        match compilation(format@) {
            Ok(args) => {
                let outcome = execution(args, Input::of(source@));
                &&& r is Ok
                &&& value_views(r.unwrap().values@) == outcome.values
                &&& r.unwrap().rest@ == leftover(outcome.input, true)
            },
            Err(e) => r == Err::<Scanned, Error>(e),
        },
{
    scan_common(format, source, true)
}

/// Scans the first line of `source` with the pattern `format` and leaves
/// what it did not consume.
pub fn scan(format: &str, source: Vec<u8>) -> (r: Result<Scanned, Error>)
    ensures
        match compilation(format@) {
            Ok(args) => {
                let outcome = execution(args, Input::of(source@));
                &&& r is Ok
                &&& value_views(r.unwrap().values@) == outcome.values
                &&& r.unwrap().rest@ == leftover(outcome.input, false)
            },
            Err(e) => r == Err::<Scanned, Error>(e),
        },
{
    scan_common(format, source, false)
}

/// Reads the first line of `source`, without its line feed, and hands back
/// what follows it.
pub fn readln(source: Vec<u8>) -> (r: (String, Vec<u8>))
    ensures
        r.0@ == decode(Input::of(source@).line),
        r.1@ == Input::of(source@).scan(Input::of(source@).line.len()).pending(),
{
    let mut pb = stdin(source, false);
    let ghost start = pb@;
    proof {
        lemma_line_text(source@);
        assert(start.line.take(start.line.len() as int) == start.line);
    }
    let line = pb.line();
    let rest = pb.finish();
    (line, rest)
}

/// The first line of a source holds no line feed.
pub proof fn lemma_line_text(source: Seq<u8>)
    ensures
        run(Input::of(source).line, text(false, true)) == Input::of(source).line.len(),
{
    let line = Input::of(source).line;
    lemma_line_len_bound(source);
    lemma_no_line_feed(source);
    lemma_run_is(line, text(false, true), line.len());
}

/// A cast wraps: what it yields lies in the range of the type, and differs
/// from the number that was cast by a multiple of the number of values of
/// the type.
pub proof fn lemma_wrap_is_modular(t: IntType, v: int)
    ensures
        t.is_signed() ==> -t.modulus() / 2 <= t.wrap(v) < t.modulus() / 2,
        !t.is_signed() ==> 0 <= t.wrap(v) < t.modulus(),
        (t.wrap(v) - v) % t.modulus() == 0,
        0 <= v < t.modulus() && !t.is_signed() ==> t.wrap(v) == v,
        -t.modulus() / 2 <= v < t.modulus() / 2 && t.is_signed() ==> t.wrap(v) == v,
{
    let m = t.modulus();
    assert(m > 0 && m % 2 == 0);
    let x = if t.is_signed() {
        v + m / 2
    } else {
        v
    };
    vstd::arithmetic::div_mod::lemma_fundamental_div_mod(x, m);
    vstd::arithmetic::div_mod::lemma_mod_multiples_basic(-(x / m), m);
    assert((x % m) - x == m * (-(x / m))) by (nonlinear_arith)
        requires
            x == m * (x / m) + x % m,
    ;
    assert(((x % m) - x) % m == 0) by {
        vstd::arithmetic::div_mod::lemma_mod_multiples_basic(-(x / m), m);
        assert(m * (-(x / m)) == (-(x / m)) * m) by (nonlinear_arith);
    }
    if 0 <= x < m {
        vstd::arithmetic::div_mod::lemma_small_mod(x as nat, m as nat);
    }
}

/// An integer placeholder of an unsigned type yields the number that the
/// digits write, reduced modulo the number of values of the type: with
/// `u8`, the digits `256` yield `0`.
pub proof fn lemma_digits_wrap(t: IntType, radix: Radix, digits: Seq<u8>)
    requires
        !t.is_signed(),
        digits.len() > 0,
    ensures
        number(radix, digits) is Some,
        t.wrap(number(radix, digits).unwrap() as int) == digits_value(radix, digits) as int
            % t.modulus(),
{
    let v = digits_value(radix, digits) as int;
    let m = t.modulus();
    let k = lemma_modulus_divides(t);
    vstd::arithmetic::div_mod::lemma_mod_mod(v, m, k);
    vstd::arithmetic::div_mod::lemma_mod_bound(v, modulus());
}

/// The number of values of every type divides 2^64.
proof fn lemma_modulus_divides(t: IntType) -> (k: int)
    ensures
        k > 0,
        t.modulus() > 0,
        t.modulus() * k == modulus(),
{
    let m = t.modulus();
    if m == 0x100 {
        0x100_0000_0000_0000
    } else if m == 0x1_0000 {
        0x1_0000_0000_0000
    } else if m == 0x1_0000_0000 {
        0x1_0000_0000
    } else {
        assert(m == 0x1_0000_0000_0000_0000);
        1
    }
}

/// A multiple of a multiple of `m` is a multiple of `m`.
proof fn lemma_multiple(a: int, big: int, m: int, k: int)
    requires
        m > 0,
        k > 0,
        big == m * k,
        a % big == 0,
    ensures
        a % m == 0,
{
    assert(big > 0) by (nonlinear_arith)
        requires
            m > 0,
            k > 0,
            big == m * k,
    ;
    vstd::arithmetic::div_mod::lemma_fundamental_div_mod(a, big);
    let q = a / big;
    assert(a == (k * q) * m) by (nonlinear_arith)
        requires
            a == big * q,
            big == m * k,
    ;
    vstd::arithmetic::div_mod::lemma_mod_multiples_basic(k * q, m);
}

/// Sums and negations of multiples of `m` are multiples of `m`.
proof fn lemma_multiples_add(a: int, b: int, m: int)
    requires
        m > 0,
        a % m == 0,
        b % m == 0,
    ensures
        (a + b) % m == 0,
        (-a) % m == 0,
{
    vstd::arithmetic::div_mod::lemma_fundamental_div_mod(a, m);
    vstd::arithmetic::div_mod::lemma_fundamental_div_mod(b, m);
    let p = a / m;
    let q = b / m;
    assert(a + b == (p + q) * m) by (nonlinear_arith)
        requires
            a == m * p,
            b == m * q,
    ;
    assert(-a == (-p) * m) by (nonlinear_arith)
        requires
            a == m * p,
    ;
    vstd::arithmetic::div_mod::lemma_mod_multiples_basic(p + q, m);
    vstd::arithmetic::div_mod::lemma_mod_multiples_basic(-p, m);
}

/// What a run of digits yields differs from the number they write by a
/// multiple of 2^64.
proof fn lemma_number_congruent(radix: Radix, digits: Seq<u8>)
    requires
        digits.len() > 0,
    ensures
        (number(radix, digits).unwrap() as int - digits_value(radix, digits) as int) % modulus()
            == 0,
{
    let v = digits_value(radix, digits) as int;
    let big = modulus();
    let n = number(radix, digits).unwrap() as int;
    vstd::arithmetic::div_mod::lemma_mod_bound(v, big);
    vstd::arithmetic::div_mod::lemma_fundamental_div_mod(v, big);
    let q = v / big;
    assert(n - v == (-q) * big) by (nonlinear_arith)
        requires
            v == big * q + n,
    ;
    vstd::arithmetic::div_mod::lemma_mod_multiples_basic(-q, big);
}

/// A magnitude read as a signed number, with its sign applied, differs
/// from the signed magnitude by a multiple of 2^64.
proof fn lemma_signed_congruent(negative: bool, n: u64)
    ensures
        (signed(negative, n) as int - if negative {
            -(n as int)
        } else {
            n as int
        }) % modulus() == 0,
{
    let big = modulus();
    let d = signed(negative, n) as int - if negative {
        -(n as int)
    } else {
        n as int
    };
    assert(d == 0 || d == big || d == -big);
    vstd::arithmetic::div_mod::lemma_mod_multiples_basic(0, big);
    vstd::arithmetic::div_mod::lemma_mod_multiples_basic(1, big);
    vstd::arithmetic::div_mod::lemma_mod_multiples_basic(-1, big);
}

/// An integer placeholder of a signed type yields a value of the type that
/// differs from the number that sign and digits write by a multiple of the
/// number of values of the type: with `i8`, the digits `128` yield `-128`.
pub proof fn lemma_signed_digits_wrap(t: IntType, negative: bool, radix: Radix, digits: Seq<u8>)
    requires
        t.is_signed(),
        digits.len() > 0,
    ensures
        number(radix, digits) is Some,
        -t.modulus() / 2 <= t.wrap(signed(negative, number(radix, digits).unwrap()) as int)
            < t.modulus() / 2,
        (t.wrap(signed(negative, number(radix, digits).unwrap()) as int) - if negative {
            -(digits_value(radix, digits) as int)
        } else {
            digits_value(radix, digits) as int
        }) % t.modulus() == 0,
{
    let v = digits_value(radix, digits) as int;
    let big = modulus();
    let m = t.modulus();
    let n = number(radix, digits).unwrap();
    let read = signed(negative, n) as int;
    let k = lemma_modulus_divides(t);
    lemma_number_congruent(radix, digits);
    lemma_signed_congruent(negative, n);
    lemma_wrap_is_modular(t, read);
    if negative {
        lemma_multiples_add(n as int - v, 0, big);
        lemma_multiples_add(read + n as int, -(n as int - v), big);
        lemma_multiple(read + v, big, m, k);
        lemma_multiples_add(t.wrap(read) - read, read + v, m);
    } else {
        lemma_multiples_add(read - n as int, n as int - v, big);
        lemma_multiple(read - v, big, m, k);
        lemma_multiples_add(t.wrap(read) - read, read - v, m);
    }
}

/// A run yields one slot for each placeholder, whether or not it ends
/// early.
pub proof fn lemma_one_slot_per_placeholder(args: Seq<ArgView>, input: Input)
    ensures
        execution(args, input).values.len() == unset(args).len(),
    decreases args.len(),
{
    if args.len() > 0 {
        let rest = args.skip(1);
        match args[0] {
            ArgView::Lit(text) => {
                let bytes = encode_utf8(text);
                lemma_one_slot_per_placeholder(
                    rest,
                    input.consume(common_prefix(bytes, input.line)),
                );
            },
            ArgView::Whitespace => {
                lemma_one_slot_per_placeholder(rest, input.scan(run(input.line, spaces())));
            },
            ArgView::Int(t) => {
                lemma_one_slot_per_placeholder(rest, input.scan(integer(t, input.line).1));
            },
            ArgView::Float(_) => {
                lemma_one_slot_per_placeholder(rest, input.scan(reading(input.line).len));
            },
            ArgView::Strin => {
                lemma_one_slot_per_placeholder(
                    rest,
                    input.scan(run(input.line, text(true, false))),
                );
            },
        }
    }
}

} // verus!
