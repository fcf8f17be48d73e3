//! Floating-point arithmetic as the library sees it: operations on bit patterns.
//!
//! The library computes with samples without looking into them. A *float unit* is a function
//! that evaluates one operation; the caller supplies it, and every contract speaks of what that
//! unit evaluates to.

use vstd::prelude::*;

verus! {

/// One floating-point operation. A single-precision operand is a `u32` bit pattern, a
/// double-precision one a `u64` bit pattern; a single-precision result stands in the low half of
/// the `u64` that a float unit returns, and a comparison returns 1 or 0.
#[derive(Debug, Clone, Copy, PartialEq, Eq, Structural)]
pub enum FloatOp {
    Add(u32, u32),
    Sub(u32, u32),
    Mul(u32, u32),
    Div(u32, u32),
    /// `x.rem_euclid(y)`
    RemEuclid(u32, u32),
    /// `x.max(y)`
    Max(u32, u32),
    /// `x.clamp(lo, hi)`
    Clamp(u32, u32, u32),
    /// `x.powf(y)`
    Powf(u32, u32),
    /// `x.sin()`
    Sin(u32),
    /// `-x`
    Neg(u32),
    /// `x < y`
    Lt(u32, u32),
    /// `x <= y`
    Le(u32, u32),
    DivF64(u64, u64),
    MulF64(u64, u64),
    /// `x.max(y)` in double precision
    MaxF64(u64, u64),
    /// `x.round()` in double precision
    RoundF64(u64),
    U8ToF32(u8),
    U32ToF32(u32),
    U64ToF64(u64),
    I64ToF64(i64),
    F32ToF64(u32),
    F64ToF32(u64),
    /// Truncating, saturating `x as i64`, as the bits of the integer.
    F64ToI64(u64),
    /// Truncating, saturating `x as u64`.
    F64ToU64(u64),
    /// Truncating, saturating `x as u32`.
    F32ToU32(u32),
    /// Truncating, saturating `x as i16`, as the low 16 bits of the integer.
    F32ToI16(u32),
}

/// 0 in single precision.
pub const ZERO: u32 = 0;

/// 1 in single precision.
pub const ONE: u32 = 0x3F80_0000;

/// 1/2 in single precision.
pub const HALF: u32 = 0x3F00_0000;

/// Half a turn in single precision.
pub const PI: u32 = 0x4049_0FDB;

/// A full turn in single precision.
pub const TAU: u32 = 0x40C9_0FDB;

/// The lowest finite single-precision number.
pub const LOWEST: u32 = 0xFF7F_FFFF;

/// The highest finite single-precision number.
pub const HIGHEST: u32 = 0x7F7F_FFFF;

/// `fp` evaluates every operation, and always to the same value.
pub open spec fn is_float_unit<F: Fn(FloatOp) -> u64>(fp: F) -> bool {
    &&& forall|op: FloatOp| #[trigger] fp.requires((op,))
    &&& forall|op: FloatOp, a: u64, b: u64| #[trigger]
        fp.ensures((op,), a) && #[trigger] fp.ensures((op,), b) ==> a == b
}

/// What `fp` evaluates `op` to.
pub open spec fn eval<F: Fn(FloatOp) -> u64>(fp: F, op: FloatOp) -> u64 {
    choose|r: u64| fp.ensures((op,), r)
}

/// The single-precision number that `fp` evaluates `op` to.
pub open spec fn eval32<F: Fn(FloatOp) -> u64>(fp: F, op: FloatOp) -> u32 {
    (eval(fp, op) % 0x1_0000_0000) as u32
}

/// Whether `fp` finds the comparison `op` to hold.
pub open spec fn is_so<F: Fn(FloatOp) -> u64>(fp: F, op: FloatOp) -> bool {
    eval(fp, op) != 0
}

/// Evaluates `op`.
pub fn apply<F: Fn(FloatOp) -> u64>(fp: &F, op: FloatOp) -> (r: u64)
    requires
        is_float_unit(*fp),
    ensures
        r == eval(*fp, op),
{
    fp(op)
}

/// Evaluates `op` to a single-precision number.
pub fn apply32<F: Fn(FloatOp) -> u64>(fp: &F, op: FloatOp) -> (r: u32)
    requires
        is_float_unit(*fp),
    ensures
        r == eval32(*fp, op),
{
    (apply(fp, op) % 0x1_0000_0000) as u32
}

/// Evaluates the comparison `op`.
pub fn check<F: Fn(FloatOp) -> u64>(fp: &F, op: FloatOp) -> (r: bool)
    requires
        is_float_unit(*fp),
    ensures
        r == is_so(*fp, op),
{
    apply(fp, op) != 0
}

/// `fp` finds `a <= b`, which it never does of anything that is not a number.
pub open spec fn le<F: Fn(FloatOp) -> u64>(fp: F, a: u32, b: u32) -> bool {
    is_so(fp, FloatOp::Le(a, b))
}

/// `fp` finds `a` in `[0, 1]`.
pub open spec fn in_unit<F: Fn(FloatOp) -> u64>(fp: F, a: u32) -> bool {
    le(fp, ZERO, a) && le(fp, a, ONE)
}

/// `fp` compares like a total order of the numbers, in which 0 comes before 1.
pub open spec fn is_ordered<F: Fn(FloatOp) -> u64>(fp: F) -> bool {
    &&& le(fp, ZERO, ONE)
    &&& forall|a: u32, b: u32| #[trigger] le(fp, a, b) ==> le(fp, a, a) && le(fp, b, b)
    &&& forall|a: u32, b: u32|
        le(fp, a, a) && le(fp, b, b) && !#[trigger] le(fp, a, b) ==> le(fp, b, a) && is_so(
            fp,
            FloatOp::Lt(b, a),
        )
    &&& forall|a: u32, b: u32, c: u32| #[trigger]
        le(fp, a, b) && #[trigger] le(fp, b, c) ==> le(fp, a, c)
}

/// `fp` rounds in step with its order: adding or taking away what is not negative does not lead
/// to the other side, bounds are kept, and `[0, 1]` is closed under what stays in it.
pub open spec fn is_monotone<F: Fn(FloatOp) -> u64>(fp: F) -> bool {
    &&& forall|x: u32|
        le(fp, x, x) ==> in_unit(fp, #[trigger] eval32(fp, FloatOp::Clamp(x, ZERO, ONE)))
    &&& forall|x: u32| le(fp, ZERO, #[trigger] eval32(fp, FloatOp::Max(x, ZERO)))
    &&& forall|a: u32, b: u32|
        le(fp, ZERO, a) && le(fp, ZERO, b) ==> le(fp, a, #[trigger] eval32(fp, FloatOp::Add(a, b)))
    &&& forall|a: u32, b: u32|
        in_unit(fp, a) && le(fp, ZERO, b) ==> le(fp, #[trigger] eval32(fp, FloatOp::Sub(a, b)), a)
    &&& forall|a: u32|
        in_unit(fp, a) ==> in_unit(fp, #[trigger] eval32(fp, FloatOp::Sub(ONE, a)))
    &&& forall|a: u32, b: u32|
        in_unit(fp, a) && in_unit(fp, b) ==> in_unit(
            fp,
            #[trigger] eval32(fp, FloatOp::Mul(a, b)),
        )
    &&& forall|a: u32, b: u32|
        in_unit(fp, a) && is_so(fp, FloatOp::Lt(ZERO, b)) ==> le(
            fp,
            ZERO,
            #[trigger] eval32(fp, FloatOp::Div(a, b)),
        )
    &&& forall|b: u32|
        le(fp, ONE, b) ==> in_unit(fp, #[trigger] eval32(fp, FloatOp::Div(ONE, b)))
}

} // verus!
