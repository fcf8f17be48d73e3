//! Types that the engines and the modules share.

use vstd::prelude::*;
use crate::text::spelled;

verus! {

/// Whether a module is still producing output that must keep its voice alive.
///
/// A released voice is freed once no module in it reports `Active`.
#[derive(Debug, Clone, Copy, PartialEq, Eq, Structural)]
pub enum Tail {
    Active,
    Done,
}

/// Per-tick context handed to every process function. `sample_rate` and `time` are the bit
/// patterns of a single-precision and a double-precision number.
#[derive(Debug, Clone, Copy, PartialEq, Eq, Structural)]
pub struct TickCtx {
    pub frames: usize,
    pub block_size: usize,
    pub sample_rate: u32,
    pub time: u64,
}

/// What a module's `process` gets each tick: timing, its input samples, and its output buffers.
///
/// Every buffer is `frames` samples long, and a sample is the bit pattern of a single-precision
/// number. On entry an output buffer holds what the last tick left in it.
pub struct ModuleCtx {
    pub frames: usize,
    pub sample_rate: u32,
    pub time: u64,
    pub inputs: Vec<Vec<u32>>,
    pub outputs: Vec<Vec<u32>>,
}

/// The contents of a [`ModuleCtx`].
#[verifier::ext_equal]
pub struct CtxView {
    pub frames: usize,
    pub sample_rate: u32,
    pub time: u64,
    pub inputs: Seq<Seq<u32>>,
    pub outputs: Seq<Seq<u32>>,
}

/// The samples in a list of buffers.
pub open spec fn samples(bufs: Seq<Vec<u32>>) -> Seq<Seq<u32>> {
    Seq::new(bufs.len(), |i: int| bufs[i]@)
}

impl View for ModuleCtx {
    type V = CtxView;

    open spec fn view(&self) -> CtxView {
        CtxView {
            frames: self.frames,
            sample_rate: self.sample_rate,
            time: self.time,
            inputs: samples(self.inputs@),
            outputs: samples(self.outputs@),
        }
    }
}

impl ModuleCtx {
    /// The samples of input port `port`.
    pub fn input(&self, port: usize) -> (buf: &Vec<u32>)
        requires
            port < self.inputs.len(),
        ensures
            buf@ == self@.inputs[port as int],
    {
        &self.inputs[port]
    }

    /// Number of materialized inputs. For a variadic module this is the count of connected wires.
    pub fn num_inputs(&self) -> (n: usize)
        ensures
            n == self@.inputs.len(),
    {
        self.inputs.len()
    }

    /// The buffer of output port `port`.
    pub fn output(&mut self, port: usize) -> (buf: &mut Vec<u32>)
        requires
            port < old(self).outputs.len(),
        ensures
            buf@ == old(self)@.outputs[port as int],
            final(self).frames == old(self).frames,
            final(self).sample_rate == old(self).sample_rate,
            final(self).time == old(self).time,
            final(self).inputs == old(self).inputs,
            final(self).outputs@ == old(self).outputs@.update(port as int, *final(buf)),
    {
        &mut self.outputs[port]
    }
}

/// What one call of a process function leaves behind.
#[verifier::ext_equal]
pub struct Outcome {
    pub state: Seq<u8>,
    pub outputs: Seq<Seq<u32>>,
    pub tail: Tail,
}

/// Every buffer of the context is `frames` samples long.
pub open spec fn shaped(ctx: CtxView) -> bool {
    &&& forall|k: int| 0 <= k < ctx.inputs.len() ==> (#[trigger] ctx.inputs[k]).len() == ctx.frames
    &&& forall|k: int| 0 <= k < ctx.outputs.len() ==> (#[trigger] ctx.outputs[k]).len() == ctx.frames
}

/// Type-erased per-record behavior: a function of the record's state, its read-only parameters
/// and its context.
pub trait ProcessFn {
    /// The behavior can be called.
    open spec fn ready(&self) -> bool {
        true
    }

    /// The behavior works on records of these sizes.
    open spec fn fits(
        &self,
        state_len: nat,
        params_len: nat,
        num_inputs: nat,
        num_outputs: nat,
    ) -> bool {
        true
    }

    /// What a call leaves behind.
    open spec fn outcome(&self, state: Seq<u8>, params: Seq<u8>, ctx: CtxView) -> Outcome {
        arbitrary()
    }

    /// Updates the state and fills the output buffers.
    fn process(&self, state: &mut Vec<u8>, params: &Vec<u8>, ctx: &mut ModuleCtx) -> (tail: Tail)
        requires
            self.ready(),
            self.fits(
                old(state)@.len(),
                params@.len(),
                old(ctx)@.inputs.len(),
                old(ctx)@.outputs.len(),
            ),
            shaped(old(ctx)@),
        ensures
            final(state)@ == self.outcome(old(state)@, params@, old(ctx)@).state,
            final(ctx)@.outputs == self.outcome(old(state)@, params@, old(ctx)@).outputs,
            tail == self.outcome(old(state)@, params@, old(ctx)@).tail,
    ;
}

/// The function table has an entry that can be called on records of these sizes.
pub open spec fn callable<P: ProcessFn>(
    fns: Seq<P>,
    fn_index: u32,
    state_len: nat,
    params_len: nat,
    num_inputs: nat,
    num_outputs: nat,
) -> bool {
    &&& fn_index < fns.len()
    &&& fns[fn_index as int].ready()
    &&& fns[fn_index as int].fits(state_len, params_len, num_inputs, num_outputs)
}

/// What a module is prepared for. `sample_rate` is the bit pattern of a single-precision number.
#[derive(Debug, Clone, Copy, PartialEq, Eq, Structural)]
pub struct PrepareCfg {
    pub sample_rate: u32,
    /// The largest number of frames of a block.
    pub max_frames: usize,
}

/// What one call of a module's `process` leaves behind.
#[verifier::ext_equal]
pub struct Step<M> {
    pub module: M,
    pub outputs: Seq<Seq<u32>>,
    pub tail: Tail,
}

/// A running module that keeps its own state.
pub trait Module: Sized {
    /// The module can be run.
    open spec fn able(&self) -> bool {
        true
    }

    /// The names of the input ports.
    open spec fn ins(&self) -> Seq<Seq<char>> {
        Seq::empty()
    }

    /// The names of the output ports.
    open spec fn outs(&self) -> Seq<Seq<char>> {
        Seq::empty()
    }

    /// The module once it has been prepared.
    open spec fn prepared(self, cfg: PrepareCfg) -> Self {
        self
    }

    /// The module back at its start.
    open spec fn rewound(self) -> Self {
        self
    }

    /// What a block leaves behind.
    open spec fn step(self, ctx: CtxView) -> Step<Self> {
        arbitrary()
    }

    /// Called once, before the first block.
    fn prepare(&mut self, cfg: &PrepareCfg)
        ensures
            *final(self) == old(self).prepared(*cfg),
            final(self).able() == old(self).able(),
            final(self).ins() == old(self).ins(),
            final(self).outs() == old(self).outs(),
    ;

    /// Returns to the initial state.
    fn reset(&mut self)
        ensures
            *final(self) == old(self).rewound(),
            final(self).able() == old(self).able(),
            final(self).ins() == old(self).ins(),
            final(self).outs() == old(self).outs(),
    ;

    fn input_ports(&self) -> (names: Vec<String>)
        ensures
            spelled(names@) == self.ins(),
    ;

    fn output_ports(&self) -> (names: Vec<String>)
        ensures
            spelled(names@) == self.outs(),
    ;

    /// Reads the inputs and fills the outputs, keeping their lengths.
    fn process(&mut self, ctx: &mut ModuleCtx) -> (tail: Tail)
        requires
            old(self).able(),
            old(ctx)@.inputs.len() == old(self).ins().len(),
            old(ctx)@.outputs.len() == old(self).outs().len(),
            shaped(old(ctx)@),
        ensures
            *final(self) == old(self).step(old(ctx)@).module,
            final(ctx)@.outputs == old(self).step(old(ctx)@).outputs,
            tail == old(self).step(old(ctx)@).tail,
            final(self).able(),
            final(self).ins() == old(self).ins(),
            final(self).outs() == old(self).outs(),
            final(ctx)@.outputs.len() == old(ctx)@.outputs.len(),
            forall|k: int|
                0 <= k < old(ctx)@.outputs.len() ==> (#[trigger] final(ctx)@.outputs[k]).len()
                    == old(ctx)@.frames,
    ;
}

} // verus!
