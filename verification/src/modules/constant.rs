//! Constant generator.

use vstd::prelude::*;
use crate::float::{FloatOp, apply32, eval32, is_float_unit};
use crate::model::{ParamView, Params, number, settings};
use crate::processing::{CtxView, Module, ModuleCtx, PrepareCfg, Step, Tail};
use crate::table::value_of;
use crate::text::spelled;

verus! {

/// Emits a constant value on its output every sample. This is how a steady value (a "knob")
/// enters the graph: wire a `ConstGenerator` into a `Sample` input.
///
/// Ports: output `0` = `out`. Param: `value` (number).
#[derive(Debug, Clone, Copy, PartialEq, Eq, Structural)]
pub struct ConstGenerator {
    /// The bit pattern of a single-precision number.
    pub value: u32,
}

/// The generator that the settings ask for.
pub open spec fn constant_of<F: Fn(FloatOp) -> u64>(
    settings: Map<Seq<char>, ParamView>,
    fp: F,
) -> Result<ConstGenerator, Seq<char>> {
    match value_of(settings, "value"@) {
        Some(v) => match number(v, fp) {
            Some(x) => Ok(ConstGenerator { value: eval32(fp, FloatOp::F64ToF32(x)) }),
            None => Err("const_generator requires a numeric `value` param"@),
        },
        None => Err("const_generator requires a numeric `value` param"@),
    }
}

impl ConstGenerator {
    /// A generator of `value`.
    pub fn new(value: u32) -> (c: ConstGenerator)
        ensures
            c.value == value,
    {
        ConstGenerator { value }
    }

    /// A generator of the `value` param.
    pub fn from_params<F: Fn(FloatOp) -> u64>(params: &Params, fp: &F) -> (made: Result<
        ConstGenerator,
        String,
    >)
        requires
            is_float_unit(*fp),
        ensures
            match made {
                Ok(c) => constant_of(settings(*params), *fp) == Ok::<ConstGenerator, Seq<char>>(c),
                Err(e) => constant_of(settings(*params), *fp) == Err::<ConstGenerator, Seq<char>>(
                    e@,
                ),
            },
    {
        let found = match params.get("value") {
            Some(v) => v.as_f64(fp),
            None => None,
        };
        match found {
            Some(x) => Ok(ConstGenerator::new(apply32(fp, FloatOp::F64ToF32(x)))),
            None => Err("const_generator requires a numeric `value` param".to_owned()),
        }
    }
}

impl Module for ConstGenerator {
    open spec fn outs(&self) -> Seq<Seq<char>> {
        seq!["out"@]
    }

    open spec fn step(self, ctx: CtxView) -> Step<ConstGenerator> {
        Step {
            module: self,
            outputs: ctx.outputs.update(0, Seq::new(ctx.frames as nat, |i: int| self.value)),
            tail: Tail::Done,
        }
    }

    fn prepare(&mut self, cfg: &PrepareCfg) {
    }

    fn reset(&mut self) {
    }

    fn input_ports(&self) -> (names: Vec<String>) {
        let names: Vec<String> = Vec::new();
        assert(spelled(names@) =~= self.ins());
        names
    }

    fn output_ports(&self) -> (names: Vec<String>) {
        let names: Vec<String> = vec!["out".to_owned()];
        assert(spelled(names@) =~= self.outs());
        names
    }

    fn process(&mut self, ctx: &mut ModuleCtx) -> (tail: Tail) {
        let ghost c = ctx@;
        let out: Vec<u32> = vec![self.value;ctx.frames];
        assert(out@ =~= Seq::new(ctx.frames as nat, |i: int| self.value));
        ctx.outputs.set(0, out);
        assert(ctx@.outputs =~= c.outputs.update(0, out@));
        Tail::Done
    }
}

} // verus!
