//! Sine generator.

use vstd::prelude::*;
use crate::float::{FloatOp, is_float_unit};
use crate::modules::oscillator::{Wave, oscillation, phase_after, wave_block};
use crate::processing::{CtxView, Module, ModuleCtx, PrepareCfg, Step, Tail};
use crate::text::spelled;

verus! {

/// Generates a sine wave whose frequency and amplitude are controlled sample-by-sample by
/// input signals.
///
/// It keeps the current phase (radians) as state and **accumulates** it: each sample it adds
/// the per-sample increment `TAU * frequency / sample_rate`, then emits `sin(phase) * amplitude`.
/// Accumulation integrates frequency over time, so frequency modulation (vibrato, FM) is
/// correct: the modulation depth stays constant instead of growing with elapsed time.
///
/// Ports: inputs `0` = frequency (Hz), `1` = amplitude; output `0` = signal.
pub struct SineGenerator<F: Fn(FloatOp) -> u64> {
    /// Radians, as the bit pattern of a single-precision number.
    pub phase: u32,
    pub fp: F,
}

impl<F: Fn(FloatOp) -> u64> SineGenerator<F> {
    pub const FREQUENCY: usize = 0;

    pub const AMPLITUDE: usize = 1;

    pub const OUT: usize = 0;

    /// A generator at phase 0, on the given float unit.
    pub fn new(fp: F) -> (sine: SineGenerator<F>)
        ensures
            sine == (SineGenerator { phase: 0, fp }),
    {
        SineGenerator { phase: 0, fp }
    }
}

impl<F: Fn(FloatOp) -> u64> Module for SineGenerator<F> {
    open spec fn able(&self) -> bool {
        is_float_unit(self.fp)
    }

    open spec fn ins(&self) -> Seq<Seq<char>> {
        seq!["frequency"@, "amplitude"@]
    }

    open spec fn outs(&self) -> Seq<Seq<char>> {
        seq!["out"@]
    }

    open spec fn rewound(self) -> SineGenerator<F> {
        SineGenerator { phase: 0, ..self }
    }

    open spec fn step(self, ctx: CtxView) -> Step<SineGenerator<F>> {
        let freq = ctx.inputs[0];
        let amp = ctx.inputs[1];
        let n = ctx.frames as int;
        Step {
            module: SineGenerator {
                phase: phase_after(self.fp, self.phase, freq, ctx.sample_rate, n),
                ..self
            },
            outputs: ctx.outputs.update(
                0,
                oscillation(self.fp, Wave::Sine, self.phase, freq, amp, ctx.sample_rate, n),
            ),
            tail: Tail::Done,
        }
    }

    fn prepare(&mut self, cfg: &PrepareCfg) {
    }

    fn reset(&mut self) {
        self.phase = 0;
    }

    fn input_ports(&self) -> (names: Vec<String>) {
        let names: Vec<String> = vec!["frequency".to_owned(), "amplitude".to_owned()];
        assert(spelled(names@) =~= self.ins());
        names
    }

    fn output_ports(&self) -> (names: Vec<String>) {
        let names: Vec<String> = vec!["out".to_owned()];
        assert(spelled(names@) =~= self.outs());
        names
    }

    fn process(&mut self, ctx: &mut ModuleCtx) -> (tail: Tail) {
        let ghost c = ctx@;
        let (out, phase) = wave_block(
            &self.fp,
            Wave::Sine,
            self.phase,
            &ctx.inputs[Self::FREQUENCY],
            &ctx.inputs[Self::AMPLITUDE],
            ctx.sample_rate,
            ctx.frames,
        );
        self.phase = phase;
        ctx.outputs.set(Self::OUT, out);
        assert(ctx@.outputs =~= c.outputs.update(0, out@));
        // A bare oscillator never keeps a voice alive on its own (an envelope does).
        Tail::Done
    }
}

} // verus!
