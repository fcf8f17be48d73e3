//! What the built-in modules do from port to port: the signal that each output carries, in terms of
//! the inputs by their names, the parameters and the state.

use vstd::prelude::*;
use crate::bytes::{lemma_packed, lemma_put_word, packed, word_at};
use crate::float::{FloatOp, TAU, ZERO, eval, eval32};
use crate::model::ParamView;
use crate::module::{InputsView, ModuleType};
use crate::modules::adsr_envelope::{Adsr, IDLE, idle_state, input_at, lemma_unpacked, sample_time, state_after, unpacked};
use crate::modules::const_generator::{Const, const_value};
use crate::modules::constant::constant_of;
use crate::modules::mix::{Mix, law_mix_is_the_sum, total};
use crate::modules::mul::{Mul, law_mul_is_the_product, whole};
use crate::modules::oscillator::{Wave, height, law_samples_follow_the_wave, phase_after};
use crate::modules::range::{Range, law_range_is_linear};
use crate::modules::sawtooth_generator::Sawtooth;
use crate::modules::sine::SineGenerator;
use crate::modules::sine_generator::Sine;
use crate::modules::square_generator::Square;
use crate::numbers::{Arithmetic, calculates64, computes, finite, finite64, near, reads_integers, size, stands_for, takes_sines, value, value64};
use crate::processing::{CtxView, Module, Outcome, ProcessFn, Tail};
use crate::table::value_of;

verus! {

/// The position of the port with this name among the inputs.
pub open spec fn port_named(inputs: InputsView, port: int, name: Seq<char>) -> bool {
    inputs matches InputsView::Fixed(names) && 0 <= port < names.len() && names[port] == name
}

/// An oscillator's outcome is right at sample `i`: the wave at the phase that the frequency port has
/// brought it to, times the amplitude port; the phase is kept, and no voice is kept alive.
pub open spec fn plays<F: Fn(FloatOp) -> u64>(
    fp: F,
    m: Arithmetic,
    wave: Wave,
    state: Seq<u8>,
    ctx: CtxView,
    out: Outcome,
    i: int,
) -> bool {
    let phase = phase_after(fp, word_at(state, 0), ctx.inputs[0], ctx.sample_rate, i + 1);
    let amp = value(ctx.inputs[1][i]);
    &&& out.outputs.len() == 1
    &&& out.outputs[0].len() == ctx.frames
    &&& near(
        value(out.outputs[0][i]),
        height(m, wave, value(phase)) * amp,
        m.error * ((1 as real) + (6 as real) * size(amp)),
    )
    &&& i + 1 == ctx.frames ==> word_at(out.state, 0) == phase
    &&& out.state.len() == 4
    &&& out.tail == Tail::Done
}

/// Each oscillator plays its own wave, with the frequency from its first port and the amplitude from
/// its second.
pub proof fn law_oscillators_play_their_waves<F: Fn(FloatOp) -> u64>(
    fp: F,
    m: Arithmetic,
    settings: Map<Seq<char>, ParamView>,
    state: Seq<u8>,
    params: Seq<u8>,
    ctx: CtxView,
    i: int,
)
    requires
        computes(fp, m),
        takes_sines(fp, m),
        state.len() == 4,
        ctx.outputs.len() == 1,
        0 <= i < ctx.frames,
        ({
            let phase = phase_after(fp, word_at(state, 0), ctx.inputs[0], ctx.sample_rate, i + 1);
            &&& finite(phase)
            &&& (0 as real) <= value(phase)
            &&& value(phase) <= value(TAU)
        }),
        finite(ctx.inputs[1][i]),
        size(value(ctx.inputs[1][i])) <= m.top,
    ensures
        port_named((Sine { fp }).desc(settings).inputs, 0, "frequency"@),
        port_named((Sine { fp }).desc(settings).inputs, 1, "amplitude"@),
        port_named((Sawtooth { fp }).desc(settings).inputs, 0, "frequency"@),
        port_named((Sawtooth { fp }).desc(settings).inputs, 1, "amplitude"@),
        port_named((Square { fp }).desc(settings).inputs, 0, "frequency"@),
        port_named((Square { fp }).desc(settings).inputs, 1, "amplitude"@),
        plays(fp, m, Wave::Sine, state, ctx, (Sine { fp }).outcome(state, params, ctx), i),
        plays(fp, m, Wave::Sawtooth, state, ctx, (Sawtooth { fp }).outcome(state, params, ctx), i),
        plays(fp, m, Wave::Square, state, ctx, (Square { fp }).outcome(state, params, ctx), i),
{
    let phase = phase_after(fp, word_at(state, 0), ctx.inputs[0], ctx.sample_rate, i + 1);
    let amp = ctx.inputs[1][i];
    law_samples_follow_the_wave(fp, m, Wave::Sine, phase, amp);
    law_samples_follow_the_wave(fp, m, Wave::Sawtooth, phase, amp);
    law_samples_follow_the_wave(fp, m, Wave::Square, phase, amp);
    lemma_put_word(
        state,
        0,
        phase_after(fp, word_at(state, 0), ctx.inputs[0], ctx.sample_rate, ctx.frames as int),
    );
}

/// A fresh oscillator starts at phase 0.
pub proof fn law_oscillators_start_at_phase_zero<F: Fn(FloatOp) -> u64>(
    fp: F,
    settings: Map<Seq<char>, ParamView>,
)
    ensures
        word_at((Sine { fp }).initial(settings), 0) == ZERO,
        word_at((Sawtooth { fp }).initial(settings), 0) == ZERO,
        word_at((Square { fp }).initial(settings), 0) == ZERO,
        (Sine { fp }).initial(settings).len() == 4,
        (Sawtooth { fp }).initial(settings).len() == 4,
        (Square { fp }).initial(settings).len() == 4,
{
    let ws = seq![0u32];
    lemma_packed(ws);
    assert(ws[0] == 0u32);
}

/// A sine generator sounds the same as a module of its own and as a record of a plan, and goes on
/// from the same phase.
pub proof fn law_sine_is_one_module<F: Fn(FloatOp) -> u64>(
    fp: F,
    phase: u32,
    params: Seq<u8>,
    ctx: CtxView,
)
    ensures
        ({
            let alone = (SineGenerator { phase, fp }).step(ctx);
            let record = (Sine { fp }).outcome(packed(seq![phase]), params, ctx);
            &&& alone.outputs == record.outputs
            &&& alone.tail == record.tail
            &&& alone.module.phase == word_at(record.state, 0)
        }),
        (SineGenerator { phase, fp }).rewound().phase == ZERO,
{
    let ws = seq![phase];
    lemma_packed(ws);
    assert(ws[0] == phase);
    lemma_put_word(
        packed(ws),
        0,
        phase_after(fp, phase, ctx.inputs[0], ctx.sample_rate, ctx.frames as int),
    );
}

/// A constant generator emits its `value` parameter, in single precision, on every sample; the module
/// and the record agree wherever the parameter is a number.
pub proof fn law_constants_emit_their_value<F: Fn(FloatOp) -> u64>(
    fp: F,
    m: Arithmetic,
    settings: Map<Seq<char>, ParamView>,
    state: Seq<u8>,
    ctx: CtxView,
    i: int,
)
    requires
        calculates64(fp, m),
        reads_integers(fp),
        m.top >= 1048576 as real,
        ctx.outputs.len() == 1,
        0 <= i < ctx.frames,
    ensures
        ({
            let c = Const { fp };
            let out = c.outcome(state, c.block(settings), ctx);
            &&& out.outputs[0].len() == ctx.frames
            &&& out.tail == Tail::Done
            &&& value_of(settings, "value"@) is None ==> out.outputs[0][i] == ZERO
            &&& value_of(settings, "value"@) matches Some(ParamView::Float(f)) ==> finite64(f)
                && size(value64(f)) <= m.top ==> value(out.outputs[0][i]) == (m.round)(value64(f))
            &&& value_of(settings, "value"@) matches Some(ParamView::Int(n)) ==> -1048576 <= n
                <= 1048576 ==> value(out.outputs[0][i]) == (m.round)(n as int as real)
            &&& constant_of(settings, fp) is Ok ==> (constant_of(settings, fp)->Ok_0).step(
                ctx,
            ).outputs == out.outputs
        }),
{
    let ws = seq![const_value(settings, fp)];
    lemma_packed(ws);
    assert(ws[0] == const_value(settings, fp));
    if let Some(v) = value_of(settings, "value"@) {
        if let ParamView::Float(f) = v {
            if finite64(f) && size(value64(f)) <= m.top {
                assert(stands_for(m, eval32(fp, FloatOp::F64ToF32(f)), value64(f)));
            }
        }
        if let ParamView::Int(n) = v {
            if -1048576 <= n <= 1048576 {
                let x = eval(fp, FloatOp::I64ToF64(n));
                assert(finite64(x) && value64(x) == n as int as real);
                assert(stands_for(m, eval32(fp, FloatOp::F64ToF32(x)), value64(x)));
            }
        }
    }
    let c = Const { fp };
    let out = c.outcome(state, c.block(settings), ctx);
    if constant_of(settings, fp) is Ok {
        assert((constant_of(settings, fp)->Ok_0).step(ctx).outputs =~= out.outputs);
    }
}

/// A range module maps its first port into the interval that its second and third span, and does so
/// alike as a module of its own and as a record of a plan.
pub proof fn law_range_maps_its_ports<F: Fn(FloatOp) -> u64>(
    fp: F,
    m: Arithmetic,
    settings: Map<Seq<char>, ParamView>,
    state: Seq<u8>,
    params: Seq<u8>,
    ctx: CtxView,
    i: int,
    top: real,
)
    requires
        computes(fp, m),
        ctx.outputs.len() == 1,
        0 <= i < ctx.frames,
        finite(ctx.inputs[0][i]),
        finite(ctx.inputs[1][i]),
        finite(ctx.inputs[2][i]),
        size(value(ctx.inputs[0][i])) <= 1 as real,
        size(value(ctx.inputs[1][i])) <= top,
        size(value(ctx.inputs[2][i])) <= top,
        (16 as real) * top + (16 as real) <= m.top,
    ensures
        ({
            let r = Range { fp };
            let out = r.outcome(state, params, ctx);
            let x = value(ctx.inputs[0][i]);
            let low = value(ctx.inputs[1][i]);
            let high = value(ctx.inputs[2][i]);
            &&& port_named(r.desc(settings).inputs, 0, "in"@)
            &&& port_named(r.desc(settings).inputs, 1, "low"@)
            &&& port_named(r.desc(settings).inputs, 2, "high"@)
            &&& out.outputs[0].len() == ctx.frames
            &&& near(
                value(out.outputs[0][i]),
                low + (x + (1 as real)) / (2 as real) * (high - low),
                m.error * ((16 as real) + (64 as real) * top),
            )
            &&& out.tail == Tail::Done
            &&& out.state == state
            &&& r.step(ctx).outputs == out.outputs
        }),
{
    law_range_is_linear(fp, m, ctx.inputs[0][i], ctx.inputs[1][i], ctx.inputs[2][i], top);
}

/// A mix adds up all its ports, sample by sample.
pub proof fn law_mix_adds_its_ports<F: Fn(FloatOp) -> u64>(
    fp: F,
    m: Arithmetic,
    state: Seq<u8>,
    params: Seq<u8>,
    ctx: CtxView,
    i: int,
    top: real,
)
    requires
        computes(fp, m),
        ctx.outputs.len() == 1,
        0 <= i < ctx.frames,
        (0 as real) <= top,
        forall|k: int|
            0 <= k < ctx.inputs.len() ==> finite(#[trigger] ctx.inputs[k][i]) && size(
                value(ctx.inputs[k][i]),
            ) <= top,
        (ctx.inputs.len() as int as real) * top + (1 as real) <= m.top,
        (ctx.inputs.len() as int as real) * (m.error * ((2 as real) + (ctx.inputs.len() as int as real)
            * top)) <= 1 as real,
    ensures
        ({
            let out = (Mix { fp }).outcome(state, params, ctx);
            let n = ctx.inputs.len() as int;
            &&& out.outputs[0].len() == ctx.frames
            &&& near(
                value(out.outputs[0][i]),
                total(ctx.inputs, i, n),
                (n as real) * (m.error * ((2 as real) + (n as real) * top)),
            )
            &&& out.tail == Tail::Done
            &&& out.state == state
        }),
{
    law_mix_is_the_sum(fp, m, ctx.inputs, i, top);
}

/// A multiplier multiplies all its ports, sample by sample.
pub proof fn law_mul_multiplies_its_ports<F: Fn(FloatOp) -> u64>(
    fp: F,
    m: Arithmetic,
    state: Seq<u8>,
    params: Seq<u8>,
    ctx: CtxView,
    i: int,
)
    requires
        computes(fp, m),
        ctx.outputs.len() == 1,
        ctx.inputs.len() >= 1,
        0 <= i < ctx.frames,
        forall|k: int|
            0 <= k < ctx.inputs.len() ==> finite(#[trigger] ctx.inputs[k][i]) && size(
                value(ctx.inputs[k][i]),
            ) <= 1 as real,
    ensures
        ({
            let out = (Mul { fp }).outcome(state, params, ctx);
            let n = ctx.inputs.len() as int;
            &&& out.outputs[0].len() == ctx.frames
            &&& near(
                value(out.outputs[0][i]),
                whole(ctx.inputs, i, n),
                ((n - 1) as real) * ((2 as real) * m.error),
            )
            &&& out.tail == Tail::Done
            &&& out.state == state
        }),
{
    law_mul_is_the_product(fp, m, ctx.inputs, i, ctx.inputs.len() as int);
}

/// An envelope reads each of its settings from the port of that name, sample by sample; its output is
/// the level, its state goes on from where the block ends, and it keeps its voice alive until it is
/// idle. A fresh one is idle and silent.
pub proof fn law_envelope_reads_its_ports<F: Fn(FloatOp) -> u64>(
    fp: F,
    settings: Map<Seq<char>, ParamView>,
    state: Seq<u8>,
    params: Seq<u8>,
    ctx: CtxView,
    i: int,
)
    requires
        ctx.outputs.len() == 1,
        0 <= i < ctx.frames,
    ensures
        ({
            let a = Adsr { fp };
            let ports = a.desc(settings).inputs;
            let x = input_at(ctx.inputs, i);
            let out = a.outcome(state, params, ctx);
            let dt = sample_time(fp, ctx.sample_rate);
            let end = state_after(fp, unpacked(state), ctx.inputs, dt, ctx.frames as int);
            &&& port_named(ports, 0, "gate"@) && x.gate == ctx.inputs[0][i]
            &&& port_named(ports, 1, "attack"@) && x.attack == ctx.inputs[1][i]
            &&& port_named(ports, 2, "decay"@) && x.decay == ctx.inputs[2][i]
            &&& port_named(ports, 3, "sustain"@) && x.sustain == ctx.inputs[3][i]
            &&& port_named(ports, 4, "release"@) && x.release == ctx.inputs[4][i]
            &&& out.outputs[0].len() == ctx.frames
            &&& out.outputs[0][i] == state_after(
                fp,
                unpacked(state),
                ctx.inputs,
                dt,
                i + 1,
            ).level
            &&& unpacked(out.state) == end
            &&& out.tail == Tail::Done <==> end.stage == IDLE
            &&& unpacked(a.initial(settings)).stage == IDLE
            &&& unpacked(a.initial(settings)).level == ZERO
            &&& unpacked(a.initial(settings)).prev_gate == ZERO
        }),
{
    let dt = sample_time(fp, ctx.sample_rate);
    lemma_unpacked(state_after(fp, unpacked(state), ctx.inputs, dt, ctx.frames as int));
    lemma_unpacked(idle_state());
}

} // verus!
