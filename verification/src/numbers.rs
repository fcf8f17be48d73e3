//! The numbers that bit patterns stand for, and float units that compute with them.
//!
//! A float unit may be any function; what the library promises of sound, and not just of bits, it
//! promises on a unit that computes as IEEE 754 asks: every result is the exact one, rounded.

use vstd::prelude::*;
use crate::float::{FloatOp, HALF, HIGHEST, LOWEST, ONE, PI, TAU, ZERO, eval, eval32, is_so};
use crate::modules::held_voices::{HZ_A4, NOTE_A4, STEPS_PER_OCTAVE, TWO};
use crate::modules::midi_keyboard::FULL_VELOCITY;
use crate::wav::{FULL_SCALE, MINUS_ONE};

verus! {

/// The power of two with this exponent.
pub open spec fn two_to(n: int) -> real
    decreases
            if n < 0 {
                -n
            } else {
                n
            },
{
    if n == 0 {
        1 as real
    } else if n > 0 {
        two_to(n - 1) * (2 as real)
    } else {
        two_to(n + 1) / (2 as real)
    }
}

/// The single-precision bit pattern stands for a number (and not for an infinity or for none).
pub open spec fn finite(b: u32) -> bool {
    (b / 0x80_0000) % 0x100 != 0xFF
}

/// The number that a single-precision bit pattern stands for: a sign, an exponent, and 23 bits of
/// a fraction, with one more bit in front of it unless the exponent is the lowest.
pub open spec fn value(b: u32) -> real {
    let e = ((b / 0x80_0000) % 0x100) as int;
    let m = (b % 0x80_0000) as int;
    let size = if e == 0 {
        (m as real) * two_to(-149)
    } else {
        ((m + 0x80_0000) as real) * two_to(e - 150)
    };
    if b >= 0x8000_0000 {
        -size
    } else {
        size
    }
}

/// The double-precision bit pattern stands for a number.
pub open spec fn finite64(b: u64) -> bool {
    (b / 0x10_0000_0000_0000) % 0x800 != 0x7FF
}

/// The number that a double-precision bit pattern stands for.
pub open spec fn value64(b: u64) -> real {
    let e = ((b / 0x10_0000_0000_0000) % 0x800) as int;
    let m = (b % 0x10_0000_0000_0000) as int;
    let size = if e == 0 {
        (m as real) * two_to(-1074)
    } else {
        ((m + 0x10_0000_0000_0000) as real) * two_to(e - 1075)
    };
    if b >= 0x8000_0000_0000_0000 {
        -size
    } else {
        size
    }
}

/// How large a number is, whatever its sign.
pub open spec fn size(x: real) -> real {
    if x < 0 as real {
        -x
    } else {
        x
    }
}

/// The two numbers are no further apart than `by`.
pub open spec fn near(x: real, y: real, by: real) -> bool {
    size(x - y) <= by
}

/// `t` is `x` without its fraction.
pub open spec fn is_trunc(t: int, x: real) -> bool {
    if x < 0 as real {
        ((t - 1) as real) < x <= t as real
    } else {
        (t as real) <= x < (t + 1) as real
    }
}

/// The real number is the integer.
pub open spec fn is_int(x: real, t: int) -> bool {
    x == t as real
}

/// How a float unit computes.
pub struct Arithmetic {
    /// The single-precision number that stands in for a real one.
    pub round: spec_fn(real) -> real,
    /// How far off that number is, by a real number between 0 and 1 or in proportion to a larger
    /// one.
    pub error: real,
    /// Results up to this size are numbers.
    pub top: real,
    /// The double-precision number that stands in for a real one, and how far off it is.
    pub round64: spec_fn(real) -> real,
    pub error64: real,
    /// The sine of a real number.
    pub sin: spec_fn(real) -> real,
    /// The power of two of a real number.
    pub exp2: spec_fn(real) -> real,
}

/// Rounding is accurate, keeps order, is symmetric about zero, and never oversteps a number.
pub open spec fn is_rounding(m: Arithmetic) -> bool {
    &&& (0 as real) <= m.error <= (1 as real) / (65536 as real)
    &&& m.top >= 1048576 as real
    &&& forall|x: real| near(#[trigger] (m.round)(x), x, m.error * (1 as real + size(x)))
    &&& forall|x: real, y: real|
        #![trigger (m.round)(x), (m.round)(y)]
        x <= y ==> (m.round)(x) <= (m.round)(y)
    &&& forall|x: real| #[trigger] (m.round)(-x) == -(m.round)(x)
    &&& forall|x: real, c: u32|
        #![trigger (m.round)(x), value(c)]
        finite(c) ==> (value(c) <= x ==> value(c) <= (m.round)(x)) && (x <= value(c) ==> (m.round)(
            x,
        ) <= value(c))
}

/// The pattern stands for the number that `x` rounds to.
pub open spec fn stands_for(m: Arithmetic, r: u32, x: real) -> bool {
    finite(r) && value(r) == (m.round)(x)
}

/// Sums, differences, products and quotients of numbers are the exact ones, rounded.
pub open spec fn calculates<F: Fn(FloatOp) -> u64>(fp: F, m: Arithmetic) -> bool {
    &&& forall|a: u32, b: u32|
        #![trigger eval32(fp, FloatOp::Add(a, b))]
        finite(a) && finite(b) && size(value(a) + value(b)) <= m.top ==> stands_for(
            m,
            eval32(fp, FloatOp::Add(a, b)),
            value(a) + value(b),
        )
    &&& forall|a: u32, b: u32|
        #![trigger eval32(fp, FloatOp::Sub(a, b))]
        finite(a) && finite(b) && size(value(a) - value(b)) <= m.top ==> stands_for(
            m,
            eval32(fp, FloatOp::Sub(a, b)),
            value(a) - value(b),
        )
    &&& forall|a: u32, b: u32|
        #![trigger eval32(fp, FloatOp::Mul(a, b))]
        finite(a) && finite(b) && size(value(a) * value(b)) <= m.top ==> stands_for(
            m,
            eval32(fp, FloatOp::Mul(a, b)),
            value(a) * value(b),
        )
    &&& forall|a: u32, b: u32|
        #![trigger eval32(fp, FloatOp::Div(a, b))]
        finite(a) && finite(b) && value(b) != 0 as real && size(value(a) / value(b)) <= m.top
            ==> stands_for(m, eval32(fp, FloatOp::Div(a, b)), value(a) / value(b))
}

/// Comparisons, and what they pick, are exact.
pub open spec fn compares<F: Fn(FloatOp) -> u64>(fp: F) -> bool {
    &&& forall|a: u32, b: u32|
        #![trigger is_so(fp, FloatOp::Lt(a, b))]
        finite(a) && finite(b) ==> is_so(fp, FloatOp::Lt(a, b)) == (value(a) < value(b))
    &&& forall|a: u32, b: u32|
        #![trigger is_so(fp, FloatOp::Le(a, b))]
        finite(a) && finite(b) ==> is_so(fp, FloatOp::Le(a, b)) == (value(a) <= value(b))
    &&& forall|a: u32|
        #![trigger eval32(fp, FloatOp::Neg(a))]
        finite(a) ==> finite(eval32(fp, FloatOp::Neg(a))) && value(eval32(fp, FloatOp::Neg(a)))
            == -value(a)
    &&& forall|a: u32, b: u32|
        #![trigger eval32(fp, FloatOp::Max(a, b))]
        finite(a) && finite(b) ==> finite(eval32(fp, FloatOp::Max(a, b))) && value(
            eval32(fp, FloatOp::Max(a, b)),
        ) == if value(a) < value(b) {
            value(b)
        } else {
            value(a)
        }
    &&& forall|a: u32, lo: u32, hi: u32|
        #![trigger eval32(fp, FloatOp::Clamp(a, lo, hi))]
        finite(a) && finite(lo) && finite(hi) && value(lo) <= value(hi) ==> finite(
            eval32(fp, FloatOp::Clamp(a, lo, hi)),
        ) && value(eval32(fp, FloatOp::Clamp(a, lo, hi))) == if value(a) < value(lo) {
            value(lo)
        } else if value(a) > value(hi) {
            value(hi)
        } else {
            value(a)
        }
}

/// The integer in the low 16 bits of a result.
pub open spec fn low16(r: u64) -> int {
    let low = r % 0x1_0000;
    if low < 0x8000 {
        low as int
    } else {
        low - 0x1_0000
    }
}

/// Conversions keep numbers, round them, or cut off their fraction.
pub open spec fn converts<F: Fn(FloatOp) -> u64>(fp: F, m: Arithmetic) -> bool {
    &&& forall|n: u8|
        #![trigger eval32(fp, FloatOp::U8ToF32(n))]
        finite(eval32(fp, FloatOp::U8ToF32(n))) && value(eval32(fp, FloatOp::U8ToF32(n)))
            == n as int as real
    &&& forall|n: u32|
        #![trigger eval32(fp, FloatOp::U32ToF32(n))]
        (n as int as real) <= m.top ==> stands_for(
            m,
            eval32(fp, FloatOp::U32ToF32(n)),
            n as int as real,
        )
    &&& forall|a: u32|
        #![trigger eval(fp, FloatOp::F32ToI16(a))]
        finite(a) && size(value(a)) < 32768 as real ==> is_trunc(
            low16(eval(fp, FloatOp::F32ToI16(a))),
            value(a),
        )
    &&& forall|a: u32|
        #![trigger eval(fp, FloatOp::F32ToU32(a))]
        finite(a) && (0 as real) <= value(a) < 4294967296 as real ==> eval(fp, FloatOp::F32ToU32(a))
            < 0x1_0000_0000 && is_trunc(eval(fp, FloatOp::F32ToU32(a)) as int, value(a))
}

/// Remainders are the exact ones, rounded: what is left of `a` after a whole number of `b`.
pub open spec fn divides<F: Fn(FloatOp) -> u64>(fp: F, m: Arithmetic) -> bool {
    forall|a: u32, b: u32|
        #![trigger eval32(fp, FloatOp::RemEuclid(a, b))]
        finite(a) && finite(b) && (0 as real) < value(b) ==> exists|k: int|
            {
                let x = value(a) - (k as real) * value(b);
                (0 as real) <= x < value(b) && #[trigger] stands_for(
                    m,
                    eval32(fp, FloatOp::RemEuclid(a, b)),
                    value(a) - (k as real) * value(b),
                )
            }
}

/// The sine is accurate, and between -1 and 1.
pub open spec fn takes_sines<F: Fn(FloatOp) -> u64>(fp: F, m: Arithmetic) -> bool {
    forall|a: u32|
        #![trigger eval32(fp, FloatOp::Sin(a))]
        finite(a) ==> finite(eval32(fp, FloatOp::Sin(a))) && size(
            value(eval32(fp, FloatOp::Sin(a))),
        ) <= 1 as real && near(value(eval32(fp, FloatOp::Sin(a))), (m.sin)(value(a)), m.error)
}

/// Powers of two are accurate in proportion to their size, for exponents from -16 to 16.
pub open spec fn takes_powers<F: Fn(FloatOp) -> u64>(fp: F, m: Arithmetic) -> bool {
    &&& forall|x: real, y: real| #[trigger] (m.exp2)(x + y) == (m.exp2)(x) * (m.exp2)(y)
    &&& forall|x: real| (#[trigger] (m.exp2)(x)) > 0 as real
    &&& forall|x: real, y: real|
        #![trigger (m.exp2)(x), (m.exp2)(y)]
        x <= y ==> (m.exp2)(x) <= (m.exp2)(y)
    &&& (m.exp2)(1 as real) == 2 as real
    &&& forall|x: real|
        size(x) <= 1 as real ==> near(#[trigger] (m.exp2)(x), 1 as real, size(x))
    &&& forall|a: u32, b: u32|
        #![trigger eval32(fp, FloatOp::Powf(a, b))]
        finite(a) && value(a) == 2 as real && finite(b) && size(value(b)) <= 16 as real ==> finite(
            eval32(fp, FloatOp::Powf(a, b)),
        ) && near(
            value(eval32(fp, FloatOp::Powf(a, b))),
            (m.exp2)(value(b)),
            m.error * (4 as real) * (m.exp2)(value(b)),
        )
}

/// Double-precision results are the exact ones, rounded, as far as numbers up to 2 to the 60th
/// go.
pub open spec fn calculates64<F: Fn(FloatOp) -> u64>(fp: F, m: Arithmetic) -> bool {
    let top = 1152921504606846976 as real;
    &&& (0 as real) <= m.error64 <= (1 as real) / (65536 as real)
    &&& forall|x: real|
        near(#[trigger] (m.round64)(x), x, m.error64 * (1 as real + size(x)))
    &&& forall|a: u32|
        #![trigger eval(fp, FloatOp::F32ToF64(a))]
        finite(a) ==> finite64(eval(fp, FloatOp::F32ToF64(a))) && value64(
            eval(fp, FloatOp::F32ToF64(a)),
        ) == value(a)
    &&& forall|n: u64|
        #![trigger eval(fp, FloatOp::U64ToF64(n))]
        finite64(eval(fp, FloatOp::U64ToF64(n))) && value64(eval(fp, FloatOp::U64ToF64(n))) == (
        m.round64)(n as int as real)
    &&& forall|a: u64, b: u64|
        #![trigger eval(fp, FloatOp::MaxF64(a, b))]
        finite64(a) && finite64(b) ==> finite64(eval(fp, FloatOp::MaxF64(a, b))) && value64(
            eval(fp, FloatOp::MaxF64(a, b)),
        ) == if value64(a) < value64(b) {
            value64(b)
        } else {
            value64(a)
        }
    &&& forall|a: u64, b: u64|
        #![trigger eval(fp, FloatOp::MulF64(a, b))]
        finite64(a) && finite64(b) && size(value64(a) * value64(b)) <= top ==> finite64(
            eval(fp, FloatOp::MulF64(a, b)),
        ) && value64(eval(fp, FloatOp::MulF64(a, b))) == (m.round64)(value64(a) * value64(b))
    &&& forall|a: u64, b: u64|
        #![trigger eval(fp, FloatOp::DivF64(a, b))]
        finite64(a) && finite64(b) && value64(b) != 0 as real && size(value64(a) / value64(b))
            <= top ==> finite64(eval(fp, FloatOp::DivF64(a, b))) && value64(
            eval(fp, FloatOp::DivF64(a, b)),
        ) == (m.round64)(value64(a) / value64(b))
    &&& forall|a: u64|
        #![trigger eval(fp, FloatOp::RoundF64(a))]
        finite64(a) && size(value64(a)) <= top * (2 as real) ==> finite64(
            eval(fp, FloatOp::RoundF64(a)),
        ) && near(
            value64(eval(fp, FloatOp::RoundF64(a))),
            value64(a),
            (1 as real) / (2 as real),
        ) && exists|t: int| #[trigger] is_int(value64(eval(fp, FloatOp::RoundF64(a))), t)
    &&& forall|a: u64|
        #![trigger eval(fp, FloatOp::F64ToU64(a))]
        finite64(a) && (0 as real) <= value64(a) <= top * (4 as real) ==> is_trunc(
            eval(fp, FloatOp::F64ToU64(a)) as int,
            value64(a),
        )
    &&& forall|a: u64|
        #![trigger eval32(fp, FloatOp::F64ToF32(a))]
        finite64(a) && size(value64(a)) <= m.top ==> stands_for(
            m,
            eval32(fp, FloatOp::F64ToF32(a)),
            value64(a),
        )
}

/// Integers are read and cut off as they should be: up to 2 to the 53rd they are numbers themselves.
pub open spec fn reads_integers<F: Fn(FloatOp) -> u64>(fp: F) -> bool {
    &&& forall|i: i64|
        #![trigger eval(fp, FloatOp::I64ToF64(i))]
        -9007199254740992 <= i <= 9007199254740992 ==> finite64(eval(fp, FloatOp::I64ToF64(i)))
            && value64(eval(fp, FloatOp::I64ToF64(i))) == i as int as real
    &&& forall|a: u64|
        #![trigger eval(fp, FloatOp::F64ToI64(a))]
        finite64(a) && size(value64(a)) < 9223372036854775808 as real ==> is_trunc(
            (eval(fp, FloatOp::F64ToI64(a)) as i64) as int,
            value64(a),
        )
}

/// The unit computes: every result of numbers is the exact one, rounded.
pub open spec fn computes<F: Fn(FloatOp) -> u64>(fp: F, m: Arithmetic) -> bool {
    is_rounding(m) && calculates(fp, m) && compares(fp) && converts(fp, m)
}

/// A number rounds to itself.
pub proof fn lemma_round_exact(m: Arithmetic, c: u32)
    requires
        is_rounding(m),
        finite(c),
    ensures
        (m.round)(value(c)) == value(c),
{
}

/// The negative powers of two down to the 24th.
pub proof fn lemma_two_to()
    ensures
        two_to(0) == 1 as real,
        two_to(-1) == (1 as real) / (2 as real),
        two_to(-2) == (1 as real) / (4 as real),
        two_to(-3) == (1 as real) / (8 as real),
        two_to(-4) == (1 as real) / (16 as real),
        two_to(-5) == (1 as real) / (32 as real),
        two_to(-6) == (1 as real) / (64 as real),
        two_to(-7) == (1 as real) / (128 as real),
        two_to(-8) == (1 as real) / (256 as real),
        two_to(-9) == (1 as real) / (512 as real),
        two_to(-10) == (1 as real) / (1024 as real),
        two_to(-11) == (1 as real) / (2048 as real),
        two_to(-12) == (1 as real) / (4096 as real),
        two_to(-13) == (1 as real) / (8192 as real),
        two_to(-14) == (1 as real) / (16384 as real),
        two_to(-15) == (1 as real) / (32768 as real),
        two_to(-16) == (1 as real) / (65536 as real),
        two_to(-17) == (1 as real) / (131072 as real),
        two_to(-18) == (1 as real) / (262144 as real),
        two_to(-19) == (1 as real) / (524288 as real),
        two_to(-20) == (1 as real) / (1048576 as real),
        two_to(-21) == (1 as real) / (2097152 as real),
        two_to(-22) == (1 as real) / (4194304 as real),
        two_to(-23) == (1 as real) / (8388608 as real),
        two_to(-24) == (1 as real) / (16777216 as real),
{
    assert(two_to(0) == 1 as real);
    assert(two_to(-1) == (1 as real) / (2 as real));
    assert(two_to(-2) == (1 as real) / (4 as real));
    assert(two_to(-3) == (1 as real) / (8 as real));
    assert(two_to(-4) == (1 as real) / (16 as real));
    assert(two_to(-5) == (1 as real) / (32 as real));
    assert(two_to(-6) == (1 as real) / (64 as real));
    assert(two_to(-7) == (1 as real) / (128 as real));
    assert(two_to(-8) == (1 as real) / (256 as real));
    assert(two_to(-9) == (1 as real) / (512 as real));
    assert(two_to(-10) == (1 as real) / (1024 as real));
    assert(two_to(-11) == (1 as real) / (2048 as real));
    assert(two_to(-12) == (1 as real) / (4096 as real));
    assert(two_to(-13) == (1 as real) / (8192 as real));
    assert(two_to(-14) == (1 as real) / (16384 as real));
    assert(two_to(-15) == (1 as real) / (32768 as real));
    assert(two_to(-16) == (1 as real) / (65536 as real));
    assert(two_to(-17) == (1 as real) / (131072 as real));
    assert(two_to(-18) == (1 as real) / (262144 as real));
    assert(two_to(-19) == (1 as real) / (524288 as real));
    assert(two_to(-20) == (1 as real) / (1048576 as real));
    assert(two_to(-21) == (1 as real) / (2097152 as real));
    assert(two_to(-22) == (1 as real) / (4194304 as real));
    assert(two_to(-23) == (1 as real) / (8388608 as real));
    assert(two_to(-24) == (1 as real) / (16777216 as real));
}

/// A pattern with an exponent field of at least 1 and at most 149 stands for its fraction over a
/// power of two.
pub proof fn lemma_value(b: u32, e: int, m: int, p: int)
    requires
        (b / 0x80_0000) % 0x100 == e,
        b % 0x80_0000 == m,
        1 <= e < 150,
        two_to(e - 150) == (1 as real) / (p as real),
        p > 0,
    ensures
        finite(b),
        b < 0x8000_0000 ==> value(b) == ((m + 0x80_0000) as real) / (p as real),
        b >= 0x8000_0000 ==> value(b) == -(((m + 0x80_0000) as real) / (p as real)),
{
    let x = (m + 0x80_0000) as real;
    let q = p as real;
    let t = two_to(e - 150);
    assert(x * t == x / q) by (nonlinear_arith)
        requires
            t == (1 as real) / q,
            q > 0 as real,
    ;
}

/// The constants of the library are the numbers that they are named after.
pub proof fn law_constants_are_their_numbers()
    ensures
        finite(ZERO) && value(ZERO) == 0 as real,
        finite(ONE) && value(ONE) == 1 as real,
        finite(MINUS_ONE) && value(MINUS_ONE) == -(1 as real),
        finite(HALF) && value(HALF) == (1 as real) / (2 as real),
        finite(TWO) && value(TWO) == 2 as real,
        finite(STEPS_PER_OCTAVE) && value(STEPS_PER_OCTAVE) == 12 as real,
        finite(NOTE_A4) && value(NOTE_A4) == 69 as real,
        finite(HZ_A4) && value(HZ_A4) == 440 as real,
        finite(FULL_VELOCITY) && value(FULL_VELOCITY) == 127 as real,
        finite(FULL_SCALE) && value(FULL_SCALE) == 32767 as real,
        finite(PI) && near(
            value(PI),
            (31415927 as real) / (10000000 as real),
            (1 as real) / (10000000 as real),
        ),
        finite(TAU) && value(TAU) == (2 as real) * value(PI),
{
    lemma_two_to();
    assert(value(ZERO) == 0 as real) by {
        let t = two_to(-149);
        assert((0 as real) * t == 0 as real) by (nonlinear_arith);
    }
    lemma_value(ONE, 127, 0, 8388608);
    lemma_value(MINUS_ONE, 127, 0, 8388608);
    lemma_value(HALF, 126, 0, 16777216);
    lemma_value(TWO, 128, 0, 4194304);
    lemma_value(STEPS_PER_OCTAVE, 130, 0x40_0000, 1048576);
    lemma_value(NOTE_A4, 133, 0x0A_0000, 131072);
    lemma_value(HZ_A4, 135, 0x5C_0000, 32768);
    lemma_value(FULL_VELOCITY, 133, 0x7E_0000, 131072);
    lemma_value(FULL_SCALE, 141, 0x7F_FE00, 512);
    lemma_value(PI, 128, 0x49_0FDB, 4194304);
    lemma_value(TAU, 129, 0x49_0FDB, 2097152);
}

/// The ends of the range of single precision: the patterns of numbers, read as integers, end at the
/// highest one, and the lowest one is its negative.
pub proof fn law_numbers_end_at_the_highest(b: u32)
    ensures
        finite(HIGHEST),
        finite(LOWEST),
        LOWEST == HIGHEST + 0x8000_0000,
        value(LOWEST) == -value(HIGHEST),
        finite(b) && b < 0x8000_0000 ==> b <= HIGHEST,
        finite(b) && b >= 0x8000_0000 ==> b <= LOWEST,
{
}

} // verus!
