//! `square_generator`: phase-accumulating square wave (50% duty). Inputs: frequency (Hz), amplitude.

use vstd::prelude::*;
use crate::bytes::{lemma_packed, packed};
use crate::float::{FloatOp, is_float_unit};
use crate::model::{ParamView, Params};
use crate::module::{DescView, Icon, ModuleDesc, ModuleType};
use crate::modules::oscillator::{Wave, describe_oscillator, oscillate, oscillator_desc, oscillator_outcome};
use crate::plan::state_bytes;
use crate::processing::{CtxView, ModuleCtx, Outcome, ProcessFn, Tail};

verus! {

/// The module's icon.
pub const ICON: Icon = [
    0b00000000000000000000000000000000,
    0b00000000000000000000000000000000,
    0b00000000000000000000000000000000,
    0b00000000000000000000000000000000,
    0b00000000000000000000000000000000,
    0b00000000000000000000000000000000,
    0b00000000000000000000000000000000,
    0b00000000000000000000000000000000,
    0b00000000000000000000000000000000,
    0b00000000000000000000000000000000,
    0b00011111110000011111110000001000,
    0b00010000010000010000010000001000,
    0b00010000010000010000010000001000,
    0b00010000010000010000010000001000,
    0b00010000010000010000010000001000,
    0b00010000010000010000010000001000,
    0b00010000010000010000010000001000,
    0b00010000010000010000010000001000,
    0b00010000010000010000010000001000,
    0b00010000010000010000010000001000,
    0b00010000010000010000010000001000,
    0b00010000010000010000010000001000,
    0b00010000011111110000011111111000,
    0b00000000000000000000000000000000,
    0b00000000000000000000000000000000,
    0b00000000000000000000000000000000,
    0b00000000000000000000000000000000,
    0b00000000000000000000000000000000,
    0b00000000000000000000000000000000,
    0b00000000000000000000000000000000,
    0b00000000000000000000000000000000,
    0b00000000000000000000000000000000,
];

/// The module, on a float unit.
#[derive(Clone, Copy)]
pub struct Square<F: Fn(FloatOp) -> u64> {
    pub fp: F,
}

/// A voice's state.
#[derive(Debug, Clone, Copy, PartialEq, Eq, Structural)]
pub struct SquareState {
    /// Radians, as the bit pattern of a single-precision number.
    pub phase: u32,
}

impl<F: Fn(FloatOp) -> u64> ProcessFn for Square<F> {
    open spec fn ready(&self) -> bool {
        is_float_unit(self.fp)
    }

    open spec fn fits(
        &self,
        state_len: nat,
        params_len: nat,
        num_inputs: nat,
        num_outputs: nat,
    ) -> bool {
        state_len == 4 && num_inputs == 2 && num_outputs == 1
    }

    open spec fn outcome(&self, state: Seq<u8>, params: Seq<u8>, ctx: CtxView) -> Outcome {
        oscillator_outcome(self.fp, Wave::Square, state, ctx)
    }

    fn process(&self, state: &mut Vec<u8>, params: &Vec<u8>, ctx: &mut ModuleCtx) -> (tail: Tail) {
        oscillate(&self.fp, Wave::Square, state, ctx)
    }
}

impl<F: Fn(FloatOp) -> u64> ModuleType for Square<F> {
    open spec fn desc(&self, settings: Map<Seq<char>, ParamView>) -> DescView {
        oscillator_desc()
    }

    open spec fn initial(&self, settings: Map<Seq<char>, ParamView>) -> Seq<u8> {
        packed(seq![0u32])
    }

    open spec fn block(&self, settings: Map<Seq<char>, ParamView>) -> Seq<u8> {
        Seq::empty()
    }

    open spec fn picture(&self) -> Icon {
        ICON
    }

    fn describe(&self, params: &Params) -> (desc: ModuleDesc) {
        proof {
            lemma_packed(seq![0u32]);
        }
        describe_oscillator()
    }

    fn init_state(&self, params: &Params) -> (state: Vec<u8>) {
        let state = SquareState { phase: 0 };
        let words: Vec<u32> = vec![state.phase];
        assert(words@ =~= seq![0u32]);
        state_bytes(words.as_slice())
    }

    fn init_params(&self, params: &Params) -> (block: Vec<u8>) {
        Vec::new()
    }

    fn icon(&self) -> (icon: Icon) {
        ICON
    }
}

} // verus!
