//! Digits, radixes and the values that runs of digits stand for.

use vstd::prelude::*;

verus! {

/// The radix of a number, chosen by its prefix.
#[derive(Clone, Copy, Debug, PartialEq, Eq, Structural)]
pub enum Radix {
    Binary,
    Octal,
    Decimal,
    Hex,
}

/// The digit `0`.
pub const DIGIT_0: u8 = 0x30;

/// The digit `9`.
pub const DIGIT_9: u8 = 0x39;

/// The letter `a`.
pub const LOWER_A: u8 = 0x61;

/// The letter `f`.
pub const LOWER_F: u8 = 0x66;

/// The letter `A`.
pub const UPPER_A: u8 = 0x41;

/// The letter `F`.
pub const UPPER_F: u8 = 0x46;

/// One more than the largest `u64`.
pub open spec fn modulus() -> int {
    0x1_0000_0000_0000_0000
}

impl Radix {
    /// The number of distinct digits.
    pub open spec fn base(self) -> nat {
        match self {
            Radix::Binary => 2,
            Radix::Octal => 8,
            Radix::Decimal => 10,
            Radix::Hex => 16,
        }
    }

    /// The number of distinct digits.
    pub fn value(self) -> (b: u64)
        ensures
            b == self.base(),
    {
        match self {
            Radix::Binary => 2,
            Radix::Octal => 8,
            Radix::Decimal => 10,
            Radix::Hex => 16,
        }
    }

    /// The value of `b` as a digit of this radix, if it is one. Hexadecimal
    /// takes letters of either case.
    pub fn digit(self, b: u8) -> (d: Option<u8>)
        ensures
            d == digit(self, b),
    {
        if DIGIT_0 <= b && b <= DIGIT_9 {
            if (b - DIGIT_0) as u64 >= self.value() {
                None
            } else {
                Some(b - DIGIT_0)
            }
        } else {
            match self {
                Radix::Hex => {
                    if LOWER_A <= b && b <= LOWER_F {
                        Some(b - (LOWER_A - 10))
                    } else if UPPER_A <= b && b <= UPPER_F {
                        Some(b - (UPPER_A - 10))
                    } else {
                        None
                    }
                },
                _ => None,
            }
        }
    }
}

/// The value of `b` as a digit of `radix`, if it is one.
pub open spec fn digit(radix: Radix, b: u8) -> Option<u8> {
    if DIGIT_0 <= b <= DIGIT_9 && b - DIGIT_0 < radix.base() {
        Some((b - DIGIT_0) as u8)
    } else if radix == Radix::Hex && LOWER_A <= b <= LOWER_F {
        Some((b - LOWER_A + 10) as u8)
    } else if radix == Radix::Hex && UPPER_A <= b <= UPPER_F {
        Some((b - UPPER_A + 10) as u8)
    } else {
        None
    }
}

/// The bytes that are digits of `radix`.
pub open spec fn digits_of(radix: Radix) -> spec_fn(u8) -> bool {
    |b: u8| digit(radix, b) is Some
}

/// The number that the digits `bytes` write in `radix`, most significant
/// digit first. Unbounded.
pub open spec fn digits_value(radix: Radix, bytes: Seq<u8>) -> nat
    decreases bytes.len(),
{
    if bytes.len() == 0 {
        0
    } else {
        digits_value(radix, bytes.drop_last()) * radix.base() + digit(
            radix,
            bytes.last(),
        ).unwrap() as nat
    }
}

/// The value of each digit of `bytes`, in order.
pub open spec fn digit_values(radix: Radix, bytes: Seq<u8>) -> Seq<u8> {
    Seq::new(bytes.len(), |i: int| digit(radix, bytes[i]).unwrap())
}

/// What a run of digits yields as a `u64`: nothing when the run is empty,
/// else its value reduced modulo 2^64.
pub open spec fn number(radix: Radix, bytes: Seq<u8>) -> Option<u64> {
    if bytes.len() == 0 {
        None
    } else {
        Some((digits_value(radix, bytes) as int % modulus()) as u64)
    }
}

/// What a run of digits behind the point yields: nothing when the run is
/// empty, else the digits' values.
pub open spec fn fraction(radix: Radix, bytes: Seq<u8>) -> Option<Seq<u8>> {
    if bytes.len() == 0 {
        None
    } else {
        Some(digit_values(radix, bytes))
    }
}

/// The reading of `v` as a two's complement number of 64 bits.
pub open spec fn as_signed(v: u64) -> int {
    if v < 0x8000_0000_0000_0000 {
        v as int
    } else {
        v - modulus()
    }
}

/// The signed number that a sign and a magnitude make. Negating the least
/// `i64` gives the least `i64` again.
pub open spec fn signed(negative: bool, v: u64) -> i64 {
    let s = as_signed(v);
    if negative && s != i64::MIN {
        (-s) as i64
    } else {
        s as i64
    }
}

/// One step of accumulation in wrapping arithmetic keeps the accumulator
/// equal to the digits' value modulo 2^64.
pub proof fn lemma_accumulate(radix: Radix, bytes: Seq<u8>, b: u8, res: u64)
    requires
        digit(radix, b) is Some,
        res == digits_value(radix, bytes) as int % modulus(),
    ensures
        vstd::wrapping::u64_specs::wrapping_add(
            vstd::wrapping::u64_specs::wrapping_mul(res, radix.base() as u64),
            digit(radix, b).unwrap() as u64,
        ) == digits_value(radix, bytes.push(b)) as int % modulus(),
{
    assert(bytes.push(b).drop_last() == bytes);
    let v = digits_value(radix, bytes) as int;
    let m = modulus();
    let base = radix.base() as int;
    let d = digit(radix, b).unwrap() as int;
    let next = digits_value(radix, bytes.push(b)) as int;
    assert(next == v * base + d);
    let x = (res * base) % m;
    assert(x == (v * base) % m) by {
        vstd::arithmetic::div_mod::lemma_mul_mod_noop_left(v, base, m);
    }
    assert((x + d) % m == next % m) by {
        vstd::arithmetic::div_mod::lemma_add_mod_noop(v * base, d, m);
        vstd::arithmetic::div_mod::lemma_small_mod(d as nat, m as nat);
    }
    assert(0 <= x < m);
    assert(vstd::wrapping::u64_specs::wrapping_mul(res, radix.base() as u64) == x);
    if x + d >= m {
        assert((x + d) % m == x + d - m) by {
            vstd::arithmetic::div_mod::lemma_mod_sub_multiples_vanish(x + d, m);
            vstd::arithmetic::div_mod::lemma_small_mod((x + d - m) as nat, m as nat);
        }
    } else {
        assert((x + d) % m == x + d) by {
            vstd::arithmetic::div_mod::lemma_small_mod((x + d) as nat, m as nat);
        }
    }
}

/// Digits whose value fits in a `u64` yield that value.
pub proof fn lemma_number_exact(radix: Radix, bytes: Seq<u8>)
    requires
        bytes.len() > 0,
        digits_value(radix, bytes) < modulus(),
    ensures
        number(radix, bytes) == Some(digits_value(radix, bytes) as u64),
{
    vstd::arithmetic::div_mod::lemma_small_mod(digits_value(radix, bytes), modulus() as nat);
}

} // verus!
