//! Audio output sink.

use vstd::prelude::*;
use crate::float::{FloatOp, is_float_unit};
use crate::model::{ParamView, Params, settings, whole};
use crate::processing::{CtxView, Module, ModuleCtx, PrepareCfg, Step, Tail};
use crate::resolve::{channel_names, name_channels};
use crate::table::value_of;
use crate::text::spelled;

verus! {

/// The output sink: one input per channel (`ch0`, `ch1`, ..). It produces no signal of its
/// own: the engine reads this node's input buffers each block and writes them to the audio
/// device. The `sample_rate` param is read by the engine to configure the device and prepare
/// every module.
///
/// Params: `channels` (default 2), `sample_rate` (Hz, default 44100; read by the engine).
#[derive(Debug, Clone, Copy, PartialEq, Eq, Structural)]
pub struct AudioOutput {
    pub channels: usize,
}

/// The sink that the settings ask for.
pub open spec fn output_of<F: Fn(FloatOp) -> u64>(
    settings: Map<Seq<char>, ParamView>,
    fp: F,
) -> Result<AudioOutput, Seq<char>> {
    let channels = match value_of(settings, "channels"@) {
        Some(v) => match whole(v, fp) {
            Some(c) => c,
            None => 2,
        },
        None => 2,
    };
    if channels < 1 {
        Err("audio_output `channels` must be >= 1"@)
    } else {
        Ok(AudioOutput { channels: channels as usize })
    }
}

impl AudioOutput {
    /// A sink of `channels` channels.
    pub fn new(channels: usize) -> (sink: AudioOutput)
        ensures
            sink.channels == channels,
    {
        AudioOutput { channels }
    }

    /// A sink with the number of channels of the `channels` param.
    pub fn from_params<F: Fn(FloatOp) -> u64>(params: &Params, fp: &F) -> (made: Result<
        AudioOutput,
        String,
    >)
        requires
            is_float_unit(*fp),
        ensures
            match made {
                Ok(sink) => output_of(settings(*params), *fp) == Ok::<AudioOutput, Seq<char>>(sink),
                Err(e) => output_of(settings(*params), *fp) == Err::<AudioOutput, Seq<char>>(e@),
            },
    {
        let found = match params.get("channels") {
            Some(v) => v.as_i64(fp),
            None => None,
        };
        let channels: i64 = match found {
            Some(c) => c,
            None => 2,
        };
        if channels < 1 {
            return Err("audio_output `channels` must be >= 1".to_owned());
        }
        Ok(
            AudioOutput::new(
                #[verifier::truncate]
                (channels as usize),
            ),
        )
    }

    /// Number of channels.
    pub fn channels(&self) -> (n: usize)
        ensures
            n == self.channels,
    {
        self.channels
    }
}

impl Module for AudioOutput {
    open spec fn ins(&self) -> Seq<Seq<char>> {
        channel_names(self.channels as int)
    }

    open spec fn step(self, ctx: CtxView) -> Step<AudioOutput> {
        Step { module: self, outputs: ctx.outputs, tail: Tail::Done }
    }

    fn prepare(&mut self, cfg: &PrepareCfg) {
    }

    fn reset(&mut self) {
    }

    fn input_ports(&self) -> (names: Vec<String>) {
        name_channels(self.channels)
    }

    fn output_ports(&self) -> (names: Vec<String>) {
        let names: Vec<String> = Vec::new();
        assert(spelled(names@) =~= self.outs());
        names
    }

    fn process(&mut self, ctx: &mut ModuleCtx) -> (tail: Tail) {
        // Sink: the engine reads this node's input buffers into the device.
        Tail::Done
    }
}

} // verus!
