//! What the oscillators share: a phase that accumulates, and a wave that is read off it.

use vstd::prelude::*;
use crate::bytes::{put_word, read_u32, word_at, write_u32};
use crate::float::{FloatOp, ONE, PI, TAU, ZERO, apply32, check, eval32, is_float_unit, is_so};
use crate::module::{DescView, Inputs, InputsView, ModuleDesc, PortDesc};
use crate::modules::held_voices::TWO;
use crate::numbers::{Arithmetic, computes, divides, finite, law_constants_are_their_numbers, lemma_round_exact, near, size, stands_for, takes_sines, value};
use crate::processing::{CtxView, ModuleCtx, Outcome, Tail, shaped};
use crate::wav::MINUS_ONE;

verus! {

/// The shape of a wave.
#[derive(Debug, Clone, Copy, PartialEq, Eq, Structural)]
pub enum Wave {
    Sine,
    /// A rising ramp from -1 to 1.
    Sawtooth,
    /// High for the first half of the cycle, low for the second.
    Square,
}

/// The phase one sample later, at frequency `freq`.
pub open spec fn next_phase<F: Fn(FloatOp) -> u64>(
    fp: F,
    phase: u32,
    freq: u32,
    sample_rate: u32,
) -> u32 {
    let turn = eval32(fp, FloatOp::Mul(TAU, freq));
    let step = eval32(fp, FloatOp::Div(turn, sample_rate));
    eval32(fp, FloatOp::RemEuclid(eval32(fp, FloatOp::Add(phase, step)), TAU))
}

/// The phase after the first `n` samples.
pub open spec fn phase_after<F: Fn(FloatOp) -> u64>(
    fp: F,
    phase: u32,
    freq: Seq<u32>,
    sample_rate: u32,
    n: int,
) -> u32
    decreases n,
{
    if n <= 0 {
        phase
    } else {
        next_phase(fp, phase_after(fp, phase, freq, sample_rate, n - 1), freq[n - 1], sample_rate)
    }
}

/// The wave at `phase`, scaled by `amp`.
pub open spec fn level<F: Fn(FloatOp) -> u64>(fp: F, wave: Wave, phase: u32, amp: u32) -> u32 {
    match wave {
        Wave::Sine => eval32(fp, FloatOp::Mul(eval32(fp, FloatOp::Sin(phase)), amp)),
        Wave::Sawtooth => {
            let ramp = eval32(fp, FloatOp::Sub(eval32(fp, FloatOp::Div(phase, PI)), ONE));
            eval32(fp, FloatOp::Mul(ramp, amp))
        },
        Wave::Square => if is_so(fp, FloatOp::Lt(phase, PI)) {
            amp
        } else {
            eval32(fp, FloatOp::Neg(amp))
        },
    }
}

/// The samples of a block: each one advances the phase first.
pub open spec fn oscillation<F: Fn(FloatOp) -> u64>(
    fp: F,
    wave: Wave,
    phase: u32,
    freq: Seq<u32>,
    amp: Seq<u32>,
    sample_rate: u32,
    n: int,
) -> Seq<u32> {
    Seq::new(
        n as nat,
        |i: int| level(fp, wave, phase_after(fp, phase, freq, sample_rate, i + 1), amp[i]),
    )
}

/// What an oscillator leaves behind. Its state is the phase; it never keeps a voice alive.
pub open spec fn oscillator_outcome<F: Fn(FloatOp) -> u64>(
    fp: F,
    wave: Wave,
    state: Seq<u8>,
    ctx: CtxView,
) -> Outcome {
    let phase = word_at(state, 0);
    let n = ctx.frames as int;
    Outcome {
        state: put_word(state, 0, phase_after(fp, phase, ctx.inputs[0], ctx.sample_rate, n)),
        outputs: ctx.outputs.update(
            0,
            oscillation(fp, wave, phase, ctx.inputs[0], ctx.inputs[1], ctx.sample_rate, n),
        ),
        tail: Tail::Done,
    }
}

/// The ports of an oscillator.
pub open spec fn oscillator_desc() -> DescView {
    DescView {
        inputs: InputsView::Fixed(seq!["frequency"@, "amplitude"@]),
        outputs: seq!["out"@],
        params: Seq::empty(),
    }
}

/// Describes an oscillator.
pub(crate) fn describe_oscillator() -> (desc: ModuleDesc)
    ensures
        desc@ == oscillator_desc(),
{
    let inputs: Vec<PortDesc> = vec![PortDesc::sample("frequency"), PortDesc::sample("amplitude")];
    let outputs: Vec<PortDesc> = vec![PortDesc::sample("out")];
    let desc = ModuleDesc { inputs: Inputs::Fixed(inputs), outputs, params: Vec::new() };
    assert(desc@ =~~= oscillator_desc());
    desc
}

/// The phase one sample later.
fn advance<F: Fn(FloatOp) -> u64>(fp: &F, phase: u32, freq: u32, sample_rate: u32) -> (next: u32)
    requires
        is_float_unit(*fp),
    ensures
        next == next_phase(*fp, phase, freq, sample_rate),
{
    let turn: u32 = apply32(fp, FloatOp::Mul(TAU, freq));
    let step: u32 = apply32(fp, FloatOp::Div(turn, sample_rate));
    let sum: u32 = apply32(fp, FloatOp::Add(phase, step));
    apply32(fp, FloatOp::RemEuclid(sum, TAU))
}

/// The wave at `phase`, scaled by `amp`.
fn sample_at<F: Fn(FloatOp) -> u64>(fp: &F, wave: Wave, phase: u32, amp: u32) -> (sample: u32)
    requires
        is_float_unit(*fp),
    ensures
        sample == level(*fp, wave, phase, amp),
{
    match wave {
        Wave::Sine => {
            let s: u32 = apply32(fp, FloatOp::Sin(phase));
            apply32(fp, FloatOp::Mul(s, amp))
        },
        Wave::Sawtooth => {
            let part: u32 = apply32(fp, FloatOp::Div(phase, PI));
            let ramp: u32 = apply32(fp, FloatOp::Sub(part, ONE));
            apply32(fp, FloatOp::Mul(ramp, amp))
        },
        Wave::Square => if check(fp, FloatOp::Lt(phase, PI)) {
            amp
        } else {
            apply32(fp, FloatOp::Neg(amp))
        },
    }
}

/// The samples of a block, and the phase after it.
pub(crate) fn wave_block<F: Fn(FloatOp) -> u64>(
    fp: &F,
    wave: Wave,
    first: u32,
    freq: &Vec<u32>,
    amp: &Vec<u32>,
    sample_rate: u32,
    frames: usize,
) -> (res: (Vec<u32>, u32))
    requires
        is_float_unit(*fp),
        freq@.len() == frames,
        amp@.len() == frames,
    ensures
        res.0@ == oscillation(*fp, wave, first, freq@, amp@, sample_rate, frames as int),
        res.1 == phase_after(*fp, first, freq@, sample_rate, frames as int),
{
    let mut phase: u32 = first;
    let mut out: Vec<u32> = Vec::new();
    let mut i: usize = 0;
    while i < frames
        invariant
            i <= frames,
            is_float_unit(*fp),
            freq@.len() == frames,
            amp@.len() == frames,
            phase == phase_after(*fp, first, freq@, sample_rate, i as int),
            out@ =~= oscillation(*fp, wave, first, freq@, amp@, sample_rate, i as int),
        decreases frames - i,
    {
        phase = advance(fp, phase, freq[i], sample_rate);
        out.push(sample_at(fp, wave, phase, amp[i]));
        i = i + 1;
    }
    (out, phase)
}

/// Runs an oscillator for a block.
pub(crate) fn oscillate<F: Fn(FloatOp) -> u64>(
    fp: &F,
    wave: Wave,
    state: &mut Vec<u8>,
    ctx: &mut ModuleCtx,
) -> (tail: Tail)
    requires
        is_float_unit(*fp),
        old(state).len() >= 4,
        old(ctx)@.inputs.len() >= 2,
        old(ctx)@.outputs.len() >= 1,
        shaped(old(ctx)@),
    ensures
        final(state)@ == oscillator_outcome(*fp, wave, old(state)@, old(ctx)@).state,
        final(ctx)@.outputs == oscillator_outcome(*fp, wave, old(state)@, old(ctx)@).outputs,
        tail == Tail::Done,
{
    let ghost c = ctx@;
    let first: u32 = read_u32(state, 0);
    let (out, phase) = wave_block(
        fp,
        wave,
        first,
        &ctx.inputs[0],
        &ctx.inputs[1],
        ctx.sample_rate,
        ctx.frames,
    );
    write_u32(state, 0, phase);
    ctx.outputs.set(0, out);
    proof {
        assert(ctx@.outputs =~= c.outputs.update(0, out@));
    }
    Tail::Done
}

/// An oscillator's phase is retained across blocks: two blocks in a row sound, and leave the
/// phase, exactly like one block over both stretches of input.
pub proof fn law_phase_is_retained<F: Fn(FloatOp) -> u64>(
    fp: F,
    wave: Wave,
    phase: u32,
    freq: (Seq<u32>, Seq<u32>),
    amp: (Seq<u32>, Seq<u32>),
    sample_rate: u32,
)
    requires
        freq.0.len() == amp.0.len(),
        freq.1.len() == amp.1.len(),
    ensures
        ({
            let n = freq.0.len() as int;
            let m = freq.1.len() as int;
            let mid = phase_after(fp, phase, freq.0, sample_rate, n);
            &&& phase_after(fp, phase, freq.0 + freq.1, sample_rate, n + m) == phase_after(
                fp,
                mid,
                freq.1,
                sample_rate,
                m,
            )
            &&& oscillation(
                fp,
                wave,
                phase,
                freq.0 + freq.1,
                amp.0 + amp.1,
                sample_rate,
                n + m,
            ) == oscillation(fp, wave, phase, freq.0, amp.0, sample_rate, n) + oscillation(
                fp,
                wave,
                mid,
                freq.1,
                amp.1,
                sample_rate,
                m,
            )
        }),
{
    let n = freq.0.len() as int;
    let m = freq.1.len() as int;
    let mid = phase_after(fp, phase, freq.0, sample_rate, n);
    lemma_phase_split(fp, phase, freq.0, freq.1, sample_rate, m);
    let whole = oscillation(fp, wave, phase, freq.0 + freq.1, amp.0 + amp.1, sample_rate, n + m);
    let parts = oscillation(fp, wave, phase, freq.0, amp.0, sample_rate, n) + oscillation(
        fp,
        wave,
        mid,
        freq.1,
        amp.1,
        sample_rate,
        m,
    );
    assert forall|i: int| 0 <= i < n + m implies whole[i] == parts[i] by {
        if i < n {
            lemma_phase_prefix(fp, phase, freq.0, freq.1, sample_rate, i + 1);
        } else {
            lemma_phase_split(fp, phase, freq.0, freq.1, sample_rate, i + 1 - n);
        }
    }
    assert(whole =~= parts);
}

/// Later input does not concern earlier phases.
proof fn lemma_phase_prefix<F: Fn(FloatOp) -> u64>(
    fp: F,
    phase: u32,
    a: Seq<u32>,
    b: Seq<u32>,
    sample_rate: u32,
    n: int,
)
    requires
        0 <= n <= a.len(),
    ensures
        phase_after(fp, phase, a + b, sample_rate, n) == phase_after(fp, phase, a, sample_rate, n),
    decreases n,
{
    if n > 0 {
        lemma_phase_prefix(fp, phase, a, b, sample_rate, n - 1);
    }
}

/// A phase goes on from where it was.
proof fn lemma_phase_split<F: Fn(FloatOp) -> u64>(
    fp: F,
    phase: u32,
    a: Seq<u32>,
    b: Seq<u32>,
    sample_rate: u32,
    m: int,
)
    requires
        0 <= m <= b.len(),
    ensures
        phase_after(fp, phase, a + b, sample_rate, a.len() + m) == phase_after(
            fp,
            phase_after(fp, phase, a, sample_rate, a.len() as int),
            b,
            sample_rate,
            m,
        ),
    decreases m,
{
    if m > 0 {
        lemma_phase_split(fp, phase, a, b, sample_rate, m - 1);
        assert((a + b)[a.len() + m - 1] == b[m - 1]);
    } else {
        lemma_phase_prefix(fp, phase, a, b, sample_rate, a.len() as int);
    }
}

/// The height of a wave at a phase, on a scale from -1 to 1.
pub open spec fn height(m: Arithmetic, wave: Wave, phase: real) -> real {
    match wave {
        Wave::Sine => (m.sin)(phase),
        // From the bottom at the start of the cycle to the top at its end.
        Wave::Sawtooth => phase / value(PI) - (1 as real),
        Wave::Square => if phase < value(PI) {
            1 as real
        } else {
            -(1 as real)
        },
    }
}

/// The wave at full amplitude, as the unit computes it.
proof fn lemma_full_wave<F: Fn(FloatOp) -> u64>(fp: F, m: Arithmetic, wave: Wave, phase: u32) -> (r:
    u32)
    requires
        computes(fp, m),
        takes_sines(fp, m),
        finite(phase),
        (0 as real) <= value(phase),
        value(phase) <= value(TAU),
    ensures
        finite(r),
        size(value(r)) <= 1 as real,
        near(value(r), height(m, wave, value(phase)), m.error * (5 as real)),
        wave == Wave::Square ==> value(r) == height(m, wave, value(phase)),
        match wave {
            Wave::Sine => r == eval32(fp, FloatOp::Sin(phase)),
            Wave::Sawtooth => r == eval32(
                fp,
                FloatOp::Sub(eval32(fp, FloatOp::Div(phase, PI)), ONE),
            ),
            Wave::Square => r == ONE || r == MINUS_ONE,
        },
{
    law_constants_are_their_numbers();
    match wave {
        Wave::Sine => {
            let r = eval32(fp, FloatOp::Sin(phase));
            assert(near(value(r), (m.sin)(value(phase)), m.error));
            r
        },
        Wave::Sawtooth => {
            let q = eval32(fp, FloatOp::Div(phase, PI));
            let r = eval32(fp, FloatOp::Sub(q, ONE));
            let x = value(phase) / value(PI);
            let p = value(phase);
            let pi = value(PI);
            assert((0 as real) <= x && x <= 2 as real) by (nonlinear_arith)
                requires
                    x == p / pi,
                    (0 as real) <= p,
                    p <= (2 as real) * pi,
                    pi > 0 as real,
            ;
            assert(stands_for(m, q, x));
            assert(value(ZERO) <= value(q) && value(q) <= value(TWO));
            assert(stands_for(m, r, value(q) - value(ONE)));
            assert(value(MINUS_ONE) <= value(r) && value(r) <= value(ONE));
            let e = m.error;
            let y = value(q) - (1 as real);
            assert(near(value(q), x, e * ((1 as real) + size(x))));
            assert(near(value(r), y, e * ((1 as real) + size(y))));
            assert(e * ((1 as real) + size(x)) <= e * (3 as real)) by (nonlinear_arith)
                requires
                    (0 as real) <= e,
                    size(x) <= 2 as real,
            ;
            assert(e * ((1 as real) + size(y)) <= e * (2 as real)) by (nonlinear_arith)
                requires
                    (0 as real) <= e,
                    size(y) <= 1 as real,
            ;
            r
        },
        Wave::Square => if value(phase) < value(PI) {
            ONE
        } else {
            MINUS_ONE
        },
    }
}

/// Every wave scales with its amplitude: the sample at an amplitude is the sample at amplitude 1
/// times the amplitude, rounded. Its size never exceeds that of the amplitude, so that with
/// amplitude 0 every wave is silent.
pub proof fn law_waves_scale_with_amplitude<F: Fn(FloatOp) -> u64>(
    fp: F,
    m: Arithmetic,
    wave: Wave,
    phase: u32,
    amp: u32,
)
    requires
        computes(fp, m),
        takes_sines(fp, m),
        finite(phase),
        (0 as real) <= value(phase),
        value(phase) <= value(TAU),
        finite(amp),
        size(value(amp)) <= m.top,
    ensures
        finite(level(fp, wave, phase, amp)),
        value(level(fp, wave, phase, amp)) == (m.round)(
            value(level(fp, wave, phase, ONE)) * value(amp),
        ),
        size(value(level(fp, wave, phase, amp))) <= size(value(amp)),
        value(amp) == 0 as real ==> value(level(fp, wave, phase, amp)) == 0 as real,
{
    law_constants_are_their_numbers();
    let r = lemma_full_wave(fp, m, wave, phase);
    let a = value(amp);
    let v = value(r);
    let neg = eval32(fp, FloatOp::Neg(amp));
    let x = v * a;
    assert(size(x) <= size(a)) by (nonlinear_arith)
        requires
            x == v * a,
            -(1 as real) <= v,
            v <= 1 as real,
            size(x) == if x < 0 as real {
                -x
            } else {
                x
            },
            size(a) == if a < 0 as real {
                -a
            } else {
                a
            },
    ;
    assert(v * (1 as real) == v);
    lemma_round_exact(m, r);
    lemma_round_exact(m, amp);
    lemma_round_exact(m, neg);
    match wave {
        Wave::Square => {
            assert((1 as real) * a == a && (-(1 as real)) * a == -a) by (nonlinear_arith);
            assert(value(eval32(fp, FloatOp::Neg(ONE))) == -(1 as real));
        },
        _ => {
            let out = level(fp, wave, phase, amp);
            assert(out == eval32(fp, FloatOp::Mul(r, amp)));
            assert(stands_for(m, out, x));
            let one = level(fp, wave, phase, ONE);
            assert(one == eval32(fp, FloatOp::Mul(r, ONE)));
            assert(value(r) * value(ONE) == v);
            assert(stands_for(m, one, v));
        },
    }
}

/// Every sample follows the shape of its wave: a sine is the sine of the phase, a sawtooth rises
/// evenly from -1 to 1 over the cycle, and a square is high for the first half of the cycle and
/// low for the second.
pub proof fn law_samples_follow_the_wave<F: Fn(FloatOp) -> u64>(
    fp: F,
    m: Arithmetic,
    wave: Wave,
    phase: u32,
    amp: u32,
)
    requires
        computes(fp, m),
        takes_sines(fp, m),
        finite(phase),
        (0 as real) <= value(phase),
        value(phase) <= value(TAU),
        finite(amp),
        size(value(amp)) <= m.top,
    ensures
        near(
            value(level(fp, wave, phase, amp)),
            height(m, wave, value(phase)) * value(amp),
            m.error * ((1 as real) + (6 as real) * size(value(amp))),
        ),
        wave == Wave::Square ==> value(level(fp, wave, phase, amp)) == height(
            m,
            wave,
            value(phase),
        ) * value(amp),
{
    law_constants_are_their_numbers();
    let r = lemma_full_wave(fp, m, wave, phase);
    law_waves_scale_with_amplitude(fp, m, wave, phase, amp);
    let a = value(amp);
    let v = value(r);
    let h = height(m, wave, value(phase));
    let e = m.error;
    match wave {
        Wave::Square => {
            assert((1 as real) * a == a && (-(1 as real)) * a == -a) by (nonlinear_arith);
            assert(e * ((1 as real) + (6 as real) * size(a)) >= 0 as real) by (nonlinear_arith)
                requires
                    (0 as real) <= e,
                    (0 as real) <= size(a),
            ;
        },
        _ => {
            let x = v * a;
            let out = level(fp, wave, phase, amp);
            assert(out == eval32(fp, FloatOp::Mul(r, amp)));
            assert(size(x) <= size(a)) by (nonlinear_arith)
                requires
                    x == v * a,
                    -(1 as real) <= v,
                    v <= 1 as real,
                    size(x) == if x < 0 as real {
                        -x
                    } else {
                        x
                    },
                    size(a) == if a < 0 as real {
                        -a
                    } else {
                        a
                    },
            ;
            assert(stands_for(m, out, x));
            assert(near((m.round)(x), x, e * ((1 as real) + size(x))));
            lemma_times(v, h, e * (5 as real), a);
            assert(e * ((1 as real) + size(x)) + e * (5 as real) * size(a) <= e * ((1 as real) + (
            6 as real) * size(a))) by (nonlinear_arith)
                requires
                    (0 as real) <= e,
                    size(x) <= size(a),
            ;
        },
    }
}

/// What is near stays near in proportion when it is scaled.
proof fn lemma_times(v: real, h: real, by: real, a: real)
    requires
        near(v, h, by),
    ensures
        near(v * a, h * a, by * size(a)),
{
    let d = v - h;
    let b = size(a);
    assert(v * a - h * a == d * a) by (nonlinear_arith)
        requires
            d == v - h,
    ;
    assert(-(by * b) <= d * a && d * a <= by * b) by (nonlinear_arith)
        requires
            -by <= d,
            d <= by,
            b == if a < 0 as real {
                -a
            } else {
                a
            },
    ;
}

/// What `x` is near once a whole number of `t` is left out.
pub open spec fn near_modulo(x: real, y: real, t: real, by: real) -> bool {
    exists|k: int| #[trigger] near_turns(x, y, t, k, by)
}

/// What `x` is near once `k` of `t` are left out.
pub open spec fn near_turns(x: real, y: real, t: real, k: int, by: real) -> bool {
    near(x, y - (k as real) * t, by)
}

/// How far the phase is off after one sample, in proportion to the step.
pub open spec fn phase_error(m: Arithmetic, step: real) -> real {
    m.error * ((32 as real) + (8 as real) * size(step))
}

/// A sample advances the phase by a full turn times the frequency over the sample rate, whole turns
/// left out, and the phase stays within one turn.
pub proof fn law_phase_advances_with_frequency<F: Fn(FloatOp) -> u64>(
    fp: F,
    m: Arithmetic,
    phase: u32,
    freq: u32,
    sample_rate: u32,
)
    requires
        computes(fp, m),
        divides(fp, m),
        finite(phase),
        (0 as real) <= value(phase),
        value(phase) <= value(TAU),
        finite(freq),
        size(value(freq)) * (32 as real) <= m.top,
        finite(sample_rate),
        value(sample_rate) >= 1 as real,
    ensures
        ({
            let next = next_phase(fp, phase, freq, sample_rate);
            let step = value(TAU) * value(freq) / value(sample_rate);
            &&& finite(next)
            &&& (0 as real) <= value(next)
            &&& value(next) <= value(TAU)
            &&& near_modulo(
                value(next),
                value(phase) + step,
                value(TAU),
                phase_error(m, step),
            )
        }),
{
    law_constants_are_their_numbers();
    let t = value(TAU);
    let f = value(freq);
    let s = value(sample_rate);
    let e = m.error;
    let turn = eval32(fp, FloatOp::Mul(TAU, freq));
    let step = eval32(fp, FloatOp::Div(turn, sample_rate));
    let sum = eval32(fp, FloatOp::Add(phase, step));
    let next = eval32(fp, FloatOp::RemEuclid(sum, TAU));
    assert(next == next_phase(fp, phase, freq, sample_rate));
    let x = t * f;
    let ideal = x / s;
    assert(size(x) * (4 as real) <= m.top) by (nonlinear_arith)
        requires
            x == t * f,
            (6 as real) < t,
            t < 7 as real,
            size(f) * (32 as real) <= m.top,
            size(x) == if x < 0 as real {
                -x
            } else {
                x
            },
            size(f) == if f < 0 as real {
                -f
            } else {
                f
            },
    ;
    assert(stands_for(m, turn, x));
    let u = value(turn);
    let y = u / s;
    lemma_quotient(x, u, s, e);
    lemma_small(e, size(ideal));
    assert(size(ideal) <= size(x)) by (nonlinear_arith)
        requires
            ideal == x / s,
            s >= 1 as real,
            size(x) == if x < 0 as real {
                -x
            } else {
                x
            },
            size(ideal) == if ideal < 0 as real {
                -ideal
            } else {
                ideal
            },
    ;
    assert(stands_for(m, step, y));
    let w = value(step);
    lemma_small(e, size(y));
    assert(e * ((1 as real) + size(y)) <= e * ((2 as real) + (2 as real) * size(ideal)))
        by (nonlinear_arith)
        requires
            (0 as real) <= e,
            size(y) <= size(ideal) + (1 as real) + size(ideal),
    ;
    let z = value(phase) + w;
    assert(size(z) <= (8 as real) + (2 as real) * size(ideal));
    assert(stands_for(m, sum, z));
    let v = value(sum);
    assert(e * ((1 as real) + size(z)) <= e * ((9 as real) + (2 as real) * size(ideal)))
        by (nonlinear_arith)
        requires
            (0 as real) <= e,
            size(z) <= (8 as real) + (2 as real) * size(ideal),
    ;
    let k = choose|k: int|
        {
            let r = v - (k as real) * t;
            (0 as real) <= r && r < t && #[trigger] stands_for(m, next, v - (k as real) * t)
        };
    let rest = v - (k as real) * t;
    assert((0 as real) <= rest && rest < t && stands_for(m, next, rest));
    assert(value(ZERO) <= value(next) && value(next) <= value(TAU));
    assert(near(value(next), rest, e * ((1 as real) + size(rest))));
    assert(e * ((1 as real) + size(rest)) <= e * (8 as real)) by (nonlinear_arith)
        requires
            (0 as real) <= e,
            size(rest) <= 7 as real,
    ;
    let i = size(ideal);
    assert(e * ((1 as real) + i) + e * ((2 as real) + (2 as real) * i) + e * ((9 as real) + (
    2 as real) * i) + e * (8 as real) <= e * ((32 as real) + (8 as real) * i)) by (nonlinear_arith)
        requires
            (0 as real) <= e,
            (0 as real) <= i,
    ;
    assert(near_turns(value(next), value(phase) + ideal, t, k, phase_error(m, ideal)));
}

/// Dividing by at least one brings what is near no further apart.
proof fn lemma_quotient(x: real, u: real, s: real, e: real)
    requires
        near(u, x, e * ((1 as real) + size(x))),
        s >= 1 as real,
        (0 as real) <= e,
    ensures
        near(u / s, x / s, e * ((1 as real) + size(x / s))),
{
    let i = 1 as real / s;
    let d = u - x;
    let b = size(x);
    let c = size(x / s);
    assert(u / s - x / s == d * i && (0 as real) < i && i <= 1 as real && c == b * i)
        by (nonlinear_arith)
        requires
            i == 1 as real / s,
            s >= 1 as real,
            d == u - x,
            b == if x < 0 as real {
                -x
            } else {
                x
            },
            c == if x / s < 0 as real {
                -(x / s)
            } else {
                x / s
            },
    ;
    let by = e * ((1 as real) + b);
    assert(-(e * ((1 as real) + c)) <= d * i && d * i <= e * ((1 as real) + c)) by (nonlinear_arith)
        requires
            -by <= d,
            d <= by,
            by == e * ((1 as real) + b),
            (0 as real) < i,
            i <= 1 as real,
            c == b * i,
            (0 as real) <= e,
    ;
}

/// A small error is small.
proof fn lemma_small(e: real, x: real)
    requires
        (0 as real) <= e,
        e <= (1 as real) / (65536 as real),
        (0 as real) <= x,
    ensures
        e * ((1 as real) + x) <= ((1 as real) + x) / (8 as real),
        e * ((2 as real) + (2 as real) * x) <= ((1 as real) + x) / (4 as real),
{
    assert(e * ((1 as real) + x) <= ((1 as real) + x) / (8 as real) && e * ((2 as real) + (2 as real)
        * x) <= ((1 as real) + x) / (4 as real)) by (nonlinear_arith)
        requires
            (0 as real) <= e,
            e <= (1 as real) / (65536 as real),
            (0 as real) <= x,
    ;
}

/// The frequency is the number of turns per second: after `n` samples at one frequency the phase
/// has advanced by `n` times the frequency over the sample rate, in turns.
pub proof fn law_frequency_is_turns_per_second<F: Fn(FloatOp) -> u64>(
    fp: F,
    m: Arithmetic,
    phase: u32,
    freq: Seq<u32>,
    sample_rate: u32,
    n: nat,
)
    requires
        computes(fp, m),
        divides(fp, m),
        finite(phase),
        (0 as real) <= value(phase),
        value(phase) <= value(TAU),
        n <= freq.len(),
        forall|i: int| 0 <= i < n ==> #[trigger] freq[i] == freq[0],
        n > 0 ==> finite(freq[0]) && size(value(freq[0])) * (32 as real) <= m.top,
        finite(sample_rate),
        value(sample_rate) >= 1 as real,
    ensures
        ({
            let last = phase_after(fp, phase, freq, sample_rate, n as int);
            let step = value(TAU) * value(freq[0]) / value(sample_rate);
            &&& finite(last)
            &&& (0 as real) <= value(last)
            &&& value(last) <= value(TAU)
            &&& near_modulo(
                value(last),
                value(phase) + (n as int as real) * step,
                value(TAU),
                (n as int as real) * phase_error(m, step),
            )
        }),
    decreases n,
{
    let t = value(TAU);
    let step = t * value(freq[0]) / value(sample_rate);
    let by = phase_error(m, step);
    let last = phase_after(fp, phase, freq, sample_rate, n as int);
    if n > 0 {
        let less = (n - 1) as nat;
        law_frequency_is_turns_per_second(fp, m, phase, freq, sample_rate, less);
        let prev = phase_after(fp, phase, freq, sample_rate, n - 1);
        assert(freq[n - 1] == freq[0]);
        law_phase_advances_with_frequency(fp, m, prev, freq[0], sample_rate);
        let x = value(phase) + (less as int as real) * step;
        let a = (less as int as real) * by;
        let k = choose|k: int| #[trigger] near_turns(value(prev), x, t, k, a);
        let j = choose|j: int| #[trigger] near_turns(value(last), value(prev) + step, t, j, by);
        assert(near_turns(value(prev), x, t, k, a));
        assert(near_turns(value(last), value(prev) + step, t, j, by));
        let q = n as int as real;
        let p = less as int as real;
        assert(q == p + (1 as real));
        assert(q * step == p * step + step && q * by == p * by + by) by (nonlinear_arith)
            requires
                q == p + (1 as real),
        ;
        assert(((k + j) as real) * t == (k as real) * t + (j as real) * t) by (nonlinear_arith);
        assert(near_turns(value(last), value(phase) + q * step, t, k + j, q * by));
    } else {
        let z = n as int as real;
        assert(z * step == 0 as real && z * by == 0 as real && (0int as real) * t == 0 as real)
            by (nonlinear_arith)
            requires
                z == 0 as real,
        ;
        assert(near_turns(value(last), value(phase) + z * step, t, 0, z * by));
    }
}

} // verus!
