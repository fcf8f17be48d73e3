//! Real-time audio output: what is decided around the device.

use vstd::prelude::*;
use crate::float::{FloatOp, ZERO, apply32, eval, eval32, is_float_unit};
use crate::numbers::{Arithmetic, computes, finite, is_trunc, law_constants_are_their_numbers, lemma_two_to, lemma_value, near, stands_for, two_to, value};
use crate::text::joined;

verus! {

/// Why playback could not start.
#[derive(Debug)]
pub enum AudioError {
    NoDevice,
    Build(String),
    Play(String),
}

impl AudioError {
    /// The error as shown to the user.
    pub fn message(&self) -> (text: String)
        ensures
            text@ == match self {
                AudioError::NoDevice => "no default audio output device"@,
                AudioError::Build(e) => "failed to build audio stream: "@ + e@,
                AudioError::Play(e) => "failed to start audio stream: "@ + e@,
            },
    {
        match self {
            AudioError::NoDevice => "no default audio output device".to_owned(),
            AudioError::Build(e) => joined("failed to build audio stream: ", e.as_str()),
            AudioError::Play(e) => joined("failed to start audio stream: ", e.as_str()),
        }
    }
}

/// 0.020 in single precision.
pub const HEADROOM: u32 = 0x3CA3_D70A;

/// Frames in 20 ms of audio.
pub open spec fn headroom<F: Fn(FloatOp) -> u64>(fp: F, sample_rate: u32) -> u32 {
    let rate = eval32(fp, FloatOp::U32ToF32(sample_rate));
    eval32(fp, FloatOp::F32ToU32(eval32(fp, FloatOp::Mul(rate, HEADROOM))))
}

/// The first range that is known, from `i` on.
pub open spec fn first_range(ranges: Seq<Option<(u32, u32)>>, i: int) -> Option<(u32, u32)>
    decreases ranges.len() - i,
{
    if i >= ranges.len() {
        None
    } else if ranges[i] is Some {
        ranges[i]
    } else {
        first_range(ranges, i + 1)
    }
}

/// `target`, brought into the range.
pub open spec fn clamped(target: u32, range: (u32, u32)) -> u32 {
    if target < range.0 {
        range.0
    } else if target > range.1 {
        range.1
    } else {
        target
    }
}

/// Choose an explicit output buffer size from the buffer-size ranges (min, max) of the device's
/// output configurations; `None` stands for an unknown range, and for the backend's default.
///
/// The default leaves the period size to the backend, and on ALSA (e.g. Raspberry Pi) that period
/// can be tiny, a few dozen frames, so the callback deadline is missed continuously and the
/// device reports xruns even for a trivial patch. Requesting a comfortable buffer of ~20 ms,
/// clamped to the device's supported range, gives the callback enough headroom. If the device
/// doesn't report a range, fall back to the backend default.
pub fn pick_buffer_size<F: Fn(FloatOp) -> u64>(
    ranges: &Vec<Option<(u32, u32)>>,
    sample_rate: u32,
    fp: &F,
) -> (size: Option<u32>)
    requires
        is_float_unit(*fp),
        first_range(ranges@, 0) matches Some((min, max)) ==> min <= max,
    ensures
        size == match first_range(ranges@, 0) {
            Some(range) => Some(clamped(headroom(*fp, sample_rate), range)),
            None => None,
        },
{
    let rate: u32 = apply32(fp, FloatOp::U32ToF32(sample_rate));
    let exact: u32 = apply32(fp, FloatOp::Mul(rate, HEADROOM));
    let target: u32 = apply32(fp, FloatOp::F32ToU32(exact));
    let mut i: usize = 0;
    while i < ranges.len()
        invariant
            i <= ranges.len(),
            first_range(ranges@, 0) == first_range(ranges@, i as int),
            target == headroom(*fp, sample_rate),
        decreases ranges.len() - i,
    {
        if let Some((min, max)) = ranges[i] {
            return if target < min {
                Some(min)
            } else if target > max {
                Some(max)
            } else {
                Some(target)
            };
        }
        i = i + 1;
    }
    None
}

/// Number of frames in a device buffer of `len` samples.
pub fn frames_in(len: usize, channels: usize) -> (frames: usize)
    ensures
        channels > 0 ==> frames == len / channels && frames * channels <= len,
        channels == 0 ==> frames == 0,
{
    if channels > 0 {
        proof {
            vstd::arithmetic::div_mod::lemma_fundamental_div_mod(len as int, channels as int);
            assert((len as int / channels as int) * channels == channels * (len as int
                / channels as int)) by (nonlinear_arith);
        }
        len / channels
    } else {
        0
    }
}

/// On a float unit that computes, the headroom is a fiftieth of a second, whatever the sample rate:
/// the number of frames is the rate over 50, but for the fraction that is cut off and for rounding.
pub proof fn law_headroom_is_twenty_milliseconds<F: Fn(FloatOp) -> u64>(
    fp: F,
    m: Arithmetic,
    sample_rate: u32,
)
    requires
        computes(fp, m),
        (sample_rate as int as real) <= m.top,
    ensures
        ({
            let rate = sample_rate as int as real;
            near(
                headroom(fp, sample_rate) as int as real,
                rate / (50 as real),
                (1 as real) + (m.error + (1 as real) / (1000000000 as real)) * ((4 as real) + (
                4 as real) * rate),
            )
        }),
{
    lemma_headroom();
    law_constants_are_their_numbers();
    let n = sample_rate as int as real;
    let rate = eval32(fp, FloatOp::U32ToF32(sample_rate));
    assert(stands_for(m, rate, n));
    assert(value(ZERO) == 0 as real);
    assert(value(ZERO) <= value(rate));
    let x = value(rate) * value(HEADROOM);
    lemma_fiftieth(m.error, n, value(rate), value(HEADROOM), x);
    let exact = eval32(fp, FloatOp::Mul(rate, HEADROOM));
    assert(x <= m.top);
    assert(stands_for(m, exact, x));
    assert(value(ZERO) <= value(exact));
    lemma_product_fits(m.error, n, x, value(exact));
    assert(is_trunc(eval(fp, FloatOp::F32ToU32(exact)) as int, value(exact)));
    lemma_cut(m.error, n, x, value(exact), headroom(fp, sample_rate) as int);
}

/// The product of a rate and the headroom constant.
proof fn lemma_fiftieth(e: real, n: real, r: real, h: real, x: real)
    requires
        (0 as real) <= e,
        e <= (1 as real) / (65536 as real),
        (0 as real) <= n,
        (0 as real) <= r,
        near(r, n, e * ((1 as real) + n)),
        near(h, (1 as real) / (50 as real), (1 as real) / (1000000000 as real)),
        x == r * h,
    ensures
        (0 as real) <= x,
        x <= (1 as real) + n / (20 as real),
        near(
            x,
            n / (50 as real),
            (e + (1 as real) / (1000000000 as real)) * ((1 as real) + n),
        ),
{
    let tiny = (1 as real) / (1000000000 as real);
    let fifty = (1 as real) / (50 as real);
    let b = e * ((1 as real) + n);
    let c = r - n;
    let g = h - fifty;
    assert(x - n * fifty == c * h + n * g) by (nonlinear_arith)
        requires
            x == r * h,
            c == r - n,
            g == h - fifty,
    ;
    assert((0 as real) <= x && x <= r / (40 as real)) by (nonlinear_arith)
        requires
            x == r * h,
            (0 as real) <= r,
            (0 as real) <= h,
            h <= (1 as real) / (40 as real),
    ;
    assert((0 as real) <= b && b <= (1 as real) + n) by (nonlinear_arith)
        requires
            b == e * ((1 as real) + n),
            (0 as real) <= e,
            e <= 1 as real,
            (0 as real) <= n,
    ;
    assert(-b <= c * h && c * h <= b) by (nonlinear_arith)
        requires
            -b <= c,
            c <= b,
            (0 as real) <= b,
            (0 as real) <= h,
            h <= 1 as real,
    ;
    let tn = tiny * n;
    assert(-tn <= n * g && n * g <= tn) by (nonlinear_arith)
        requires
            tn == tiny * n,
            -tiny <= g,
            g <= tiny,
            (0 as real) <= n,
    ;
    assert((e + tiny) * ((1 as real) + n) == b + tiny + tn) by (nonlinear_arith)
        requires
            b == e * ((1 as real) + n),
            tn == tiny * n,
    ;
    assert(n * fifty == n / (50 as real));
}

/// A rounded product fits a word.
proof fn lemma_product_fits(e: real, n: real, x: real, v: real)
    requires
        (0 as real) <= e,
        e <= 1 as real,
        (0 as real) <= x,
        n < 4294967296 as real,
        x <= (1 as real) + n / (20 as real),
        near(v, x, e * ((1 as real) + x)),
    ensures
        v < 4294967296 as real,
{
    assert(e * ((1 as real) + x) <= (1 as real) + x) by (nonlinear_arith)
        requires
            (0 as real) <= e,
            e <= 1 as real,
            (0 as real) <= x,
    ;
}

/// A product that is rounded and then cut.
proof fn lemma_cut(e: real, n: real, x: real, v: real, t: int)
    requires
        (0 as real) <= e,
        (0 as real) <= n,
        (0 as real) <= x,
        x <= (1 as real) + n / (20 as real),
        near(
            x,
            n / (50 as real),
            (e + (1 as real) / (1000000000 as real)) * ((1 as real) + n),
        ),
        near(v, x, e * ((1 as real) + x)),
        (0 as real) <= v,
        is_trunc(t, v),
    ensures
        near(
            t as real,
            n / (50 as real),
            (1 as real) + (e + (1 as real) / (1000000000 as real)) * ((4 as real) + (4 as real)
                * n),
        ),
{
    let tiny = (1 as real) / (1000000000 as real);
    let f = e + tiny;
    let b = f * ((1 as real) + n);
    assert(e * ((1 as real) + x) <= (2 as real) * b && f * ((4 as real) + (4 as real) * n) == (
    4 as real) * b && (0 as real) <= b) by (nonlinear_arith)
        requires
            b == f * ((1 as real) + n),
            f >= e,
            (0 as real) <= e,
            (0 as real) <= n,
            (0 as real) <= x,
            x <= (1 as real) + n,
    {
        assert((1 as real) + x <= (2 as real) * ((1 as real) + n));
        assert(e * ((1 as real) + x) <= e * ((2 as real) * ((1 as real) + n)));
        assert(e * ((1 as real) + n) <= f * ((1 as real) + n));
    }
}

/// The headroom constant is a fiftieth, to nine digits.
proof fn lemma_headroom()
    ensures
        finite(HEADROOM),
        near(value(HEADROOM), (1 as real) / (50 as real), (1 as real) / (1000000000 as real)),
{
    lemma_two_to();
    assert(two_to(-25) == (1 as real) / (33554432 as real));
    assert(two_to(-26) == (1 as real) / (67108864 as real));
    assert(two_to(-27) == (1 as real) / (134217728 as real));
    assert(two_to(-28) == (1 as real) / (268435456 as real));
    assert(two_to(-29) == (1 as real) / (536870912 as real));
    lemma_value(HEADROOM, 121, 0x23_D70A, 536870912);
}

/// How far two sizes are apart.
pub open spec fn apart(a: u32, b: u32) -> int {
    if a <= b {
        b - a
    } else {
        a - b
    }
}

/// The chosen size lies in the range, and is as close to the target as the range allows.
pub proof fn law_clamped_is_closest(target: u32, range: (u32, u32), other: u32)
    requires
        range.0 <= range.1,
        range.0 <= other <= range.1,
    ensures
        range.0 <= clamped(target, range) <= range.1,
        apart(target, clamped(target, range)) <= apart(target, other),
        range.0 <= target <= range.1 ==> clamped(target, range) == target,
{
}

/// The first range that is known decides, however many unknown ones come before it.
pub proof fn law_first_known_range_decides(ranges: Seq<Option<(u32, u32)>>, from: int, k: int)
    requires
        0 <= from <= k <= ranges.len(),
        forall|i: int| from <= i < k ==> #[trigger] ranges[i] is None,
    ensures
        k < ranges.len() && ranges[k] is Some ==> first_range(ranges, from) == ranges[k],
        k == ranges.len() ==> first_range(ranges, from) is None,
    decreases k - from,
{
    if from < k {
        law_first_known_range_decides(ranges, from + 1, k);
    }
}

} // verus!
