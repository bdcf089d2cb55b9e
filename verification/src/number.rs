//! The numbers of a JSON value.
use vstd::prelude::*;

verus! {

/// What a number is: an integer, or a binary64 floating-point number taken
/// as its 64 bits.
pub enum NumberValue {
    Integer(int),
    Float(u64),
}

/// A JSON number: a signed or an unsigned 64-bit integer, or a binary64
/// floating-point number, which is held as its 64 bits.
#[derive(Clone, Copy, Debug)]
pub enum Number {
    Int64(i64),
    UInt64(u64),
    Float64(u64),
}

impl View for Number {
    type V = NumberValue;

    open spec fn view(&self) -> NumberValue {
        match self {
            Number::Int64(v) => NumberValue::Integer(*v as int),
            Number::UInt64(v) => NumberValue::Integer(*v as int),
            Number::Float64(bits) => NumberValue::Float(*bits),
        }
    }
}

impl PartialEq for Number {
    /// Two numbers are equal where they are the same integer, or where they
    /// are floating-point numbers of the same bits.
    fn eq(&self, other: &Number) -> (r: bool) {
        match (self, other) {
            (Number::Int64(a), Number::Int64(b)) => *a == *b,
            (Number::UInt64(a), Number::UInt64(b)) => *a == *b,
            (Number::Int64(a), Number::UInt64(b)) => *a >= 0 && *a as u64 == *b,
            (Number::UInt64(a), Number::Int64(b)) => *b >= 0 && *b as u64 == *a,
            (Number::Float64(a), Number::Float64(b)) => *a == *b,
            _ => false,
        }
    }
}

impl vstd::std_specs::cmp::PartialEqSpecImpl for Number {
    open spec fn obeys_eq_spec() -> bool {
        true
    }

    open spec fn eq_spec(&self, other: &Number) -> bool {
        self@ == other@
    }
}

/// Two to the power of 52: the weight of the hidden bit of a binary64.
pub const TWO_52: u64 = 0x10_0000_0000_0000;

/// Two to the power of 53: every integer below is a binary64.
pub const TWO_53: u64 = 0x20_0000_0000_0000;

/// Two to the power of 63: the sign bit of a binary64.
pub const TWO_63: u64 = 0x8000_0000_0000_0000;

/// The bits are those of a NaN: all eleven bits of the exponent are set and
/// the fraction is not zero.
pub open spec fn is_nan(bits: u64) -> bool {
    bits / TWO_52 % 0x800 == 0x7ff && bits % TWO_52 != 0
}

/// The bits of the binary64 `m * 2^e`, for `m` below two to the 53.
pub open spec fn normal_bits(m: int, e: int) -> int
    decreases TWO_53 - m,
{
    if 0 < m < TWO_52 {
        normal_bits(2 * m, e - 1)
    } else {
        (1075 + e) * TWO_52 + (m - TWO_52)
    }
}

/// The bits of the binary64 nearest to `m`, which is at least two to the
/// 53: the lowest `s` bits of `m`, with `unit` two to the `s`, are cut off
/// until 53 bits are left, and what is cut off rounds to nearest, a tie to
/// the even neighbour.
pub open spec fn rounded_bits(m: int, s: int, unit: int) -> int
    decreases 11 - s,
{
    if m / unit >= TWO_53 && s < 11 {
        rounded_bits(m, s + 1, 2 * unit)
    } else {
        let kept = m / unit;
        let cut = m % unit;
        let up: int = if 2 * cut > unit || (2 * cut == unit && kept % 2 == 1) {
            1
        } else {
            0
        };
        (1075 + s) * TWO_52 + (kept + up - TWO_52)
    }
}

/// The bits of the binary64 nearest to an integer from 0 to below two to
/// the 64.
pub open spec fn magnitude_bits(m: int) -> int {
    if m == 0 {
        0
    } else if m < TWO_53 {
        normal_bits(m, 0)
    } else {
        rounded_bits(m, 1, 2)
    }
}

/// The bits of the binary64 that a number is compared as: the bits of a
/// floating-point number, and of the binary64 nearest to an integer.
pub open spec fn float_bits(n: NumberValue) -> int {
    match n {
        NumberValue::Float(bits) => bits as int,
        NumberValue::Integer(v) => if v < 0 {
            TWO_63 + magnitude_bits(-v)
        } else {
            magnitude_bits(v)
        },
    }
}

/// A key that grows with the binary64 of the given bits: the two zeros
/// have the same key, a number above zero has its bits with the sign bit
/// set, a number below zero has all its bits flipped. A NaN is keyed in the
/// same way, so that one with the sign bit clear lies above all numbers and
/// one with the sign bit set below.
pub open spec fn float_key(bits: int) -> int {
    if bits % (TWO_63 as int) == 0 {
        TWO_63 as int
    } else if bits < TWO_63 {
        bits + TWO_63
    } else {
        u64::MAX - bits
    }
}

/// The key by which numbers are ordered: the larger the number as a
/// binary64, the larger the key, and equal numbers have equal keys.
pub open spec fn number_key(n: NumberValue) -> int {
    float_key(float_bits(n))
}

/// Whether the bits are those of a NaN.
pub(crate) fn nan(bits: u64) -> (r: bool)
    ensures
        r == is_nan(bits),
{
    bits / TWO_52 % 0x800 == 0x7ff && bits % TWO_52 != 0
}

/// The bits of the binary64 nearest to `m`.
pub fn bits_of_magnitude(m: u64) -> (bits: u64)
    ensures
        bits == magnitude_bits(m as int),
        bits < 0x43f0_0000_0000_0001,
{
    if m == 0 {
        return 0;
    }
    if m < TWO_53 {
        let mut scaled = m;
        let mut exponent: u64 = 1075;
        while scaled < TWO_52
            invariant
                0 < scaled < TWO_53,
                exponent <= 1075,
                scaled >= pow2_of(1075 - exponent),
                normal_bits(scaled as int, exponent - 1075) == normal_bits(m as int, 0),
            decreases TWO_53 - scaled,
        {
            proof {
                lemma_pow2_step(1075 - exponent);
                lemma_pow2_52();
                if 1075 - exponent >= 52 {
                    lemma_pow2_grows(52, 1075 - exponent);
                }
            }
            scaled = 2 * scaled;
            exponent = exponent - 1;
        }
        proof {
            lemma_pow2_52();
            lemma_pow2_step(52);
            if 1075 - exponent >= 53 {
                lemma_pow2_grows(53, 1075 - exponent);
            }
        }
        exponent * TWO_52 + (scaled - TWO_52)
    } else {
        let mut s: u64 = 1;
        let mut unit: u64 = 2;
        proof {
            reveal_with_fuel(pow2_of, 2);
        }
        while m / unit >= TWO_53 && s < 11
            invariant
                1 <= s <= 11,
                unit == pow2_of(s as int),
                2 <= unit <= 2048,
                m >= TWO_52 * unit,
                rounded_bits(m as int, s as int, unit as int) == rounded_bits(m as int, 1, 2),
            decreases 11 - s,
        {
            proof {
                lemma_pow2_step(s as int);
                lemma_pow2_11();
                lemma_pow2_grows(s + 1, 11);
                assert(m >= TWO_53 * unit) by (nonlinear_arith)
                    requires
                        m / unit >= TWO_53,
                        unit > 0,
                ;
            }
            s = s + 1;
            unit = 2 * unit;
        }
        let kept = m / unit;
        let cut = m % unit;
        proof {
            assert(kept >= TWO_52) by (nonlinear_arith)
                requires
                    m >= TWO_52 * unit,
                    unit > 0,
                    kept == m / unit,
            ;
            if s == 11 {
                lemma_pow2_11();
                assert(m / 2048 < TWO_53);
            }
        }
        let up: u64 = if 2 * cut > unit || (2 * cut == unit && kept % 2 == 1) {
            1
        } else {
            0
        };
        (1075 + s) * TWO_52 + (kept + up - TWO_52)
    }
}

/// Two to the power of `n`.
pub open spec fn pow2_of(n: int) -> int
    decreases n,
{
    if n <= 0 {
        1
    } else {
        2 * pow2_of(n - 1)
    }
}

/// Two to a power that is not negative is at least one, and doubles with
/// the next power.
pub proof fn lemma_pow2_facts(n: int)
    requires
        n >= 0,
    ensures
        pow2_of(n + 1) == 2 * pow2_of(n),
        pow2_of(n) >= 1,
        n <= 11 ==> pow2_of(n) <= 2048,
        n == 11 ==> pow2_of(n) == 2048,
        n >= 1 ==> pow2_of(n) >= 2,
        n >= 53 ==> pow2_of(n) >= TWO_53,
{
    lemma_pow2_step(n);
    lemma_pow2_11();
    lemma_pow2_52();
    lemma_pow2_step(52);
    if n <= 11 {
        lemma_pow2_grows(n, 11);
    }
    if n >= 1 {
        lemma_pow2_grows(1, n);
        reveal_with_fuel(pow2_of, 2);
    }
    if n >= 53 {
        lemma_pow2_grows(53, n);
    }
}

proof fn lemma_pow2_step(n: int)
    requires
        n >= 0,
    ensures
        pow2_of(n + 1) == 2 * pow2_of(n),
        pow2_of(n) >= 1,
    decreases n,
{
    if n > 0 {
        lemma_pow2_step(n - 1);
    }
}

proof fn lemma_pow2_grows(i: int, j: int)
    requires
        0 <= i <= j,
    ensures
        1 <= pow2_of(i) <= pow2_of(j),
    decreases j,
{
    lemma_pow2_step(i);
    if i < j {
        lemma_pow2_grows(i, j - 1);
        lemma_pow2_step(j - 1);
    }
}

proof fn lemma_pow2_11()
    ensures
        pow2_of(11) == 2048,
{
    reveal_with_fuel(pow2_of, 12);
}

proof fn lemma_pow2_52()
    ensures
        pow2_of(52) == TWO_52,
{
    lemma_pow2_11();
    lemma_pow2_sum(11, 11);
    lemma_pow2_sum(22, 22);
    lemma_pow2_sum(44, 8);
    assert(pow2_of(8) == 256) by {
        reveal_with_fuel(pow2_of, 9);
    }
}

proof fn lemma_pow2_sum(i: int, j: int)
    requires
        0 <= i,
        0 <= j,
    ensures
        pow2_of(i + j) == pow2_of(i) * pow2_of(j),
    decreases j,
{
    if j > 0 {
        lemma_pow2_sum(i, j - 1);
        assert(2 * (pow2_of(i) * pow2_of(j - 1)) == pow2_of(i) * (2 * pow2_of(j - 1)))
            by (nonlinear_arith);
    }
}

impl Number {
    /// The bits of the binary64 that the number is compared as.
    pub fn to_float_bits(&self) -> (bits: u64)
        ensures
            bits == float_bits(self@),
    {
        match *self {
            Number::Float64(bits) => bits,
            Number::UInt64(v) => bits_of_magnitude(v),
            Number::Int64(v) => if v >= 0 {
                bits_of_magnitude(v as u64)
            } else {
                TWO_63 + bits_of_magnitude((-(v + 1)) as u64 + 1)
            },
        }
    }

    /// The key by which the number is ordered.
    pub fn key(&self) -> (k: u64)
        ensures
            k == number_key(self@),
    {
        let bits = self.to_float_bits();
        if bits % TWO_63 == 0 {
            TWO_63
        } else if bits < TWO_63 {
            bits + TWO_63
        } else {
            u64::MAX - bits
        }
    }
}

} // verus!
