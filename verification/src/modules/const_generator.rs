//! `const_generator`: emits a constant. Param `value`.

use vstd::prelude::*;
use crate::bytes::{lemma_packed, packed, read_u32, word_at};
use crate::float::{FloatOp, HIGHEST, LOWEST, is_float_unit};
use crate::model::{ParamValue, ParamView, Params, settings};
use crate::module::{DescView, F32, FromParamValue, Icon, Inputs, InputsView, KindView, ModuleDesc, ModuleType, ParamDesc, ParamDescView, ParamKind, PortDesc, SynthModuleParams, param_views};
use crate::plan::state_bytes;
use crate::processing::{CtxView, ModuleCtx, Outcome, ProcessFn, Tail};
use crate::table::value_of;

verus! {

/// The module's icon.
pub const ICON: Icon = [
    0b00000000000000000000000000000000,
    0b00000000000000000000000000000000,
    0b00000000000000000000000000000000,
    0b00000000000000000000000000000000,
    0b00000000000000000000000000000000,
    0b00000000000000000000000000000000,
    0b00000000000000000000000000000000,
    0b00000000000000000000000000000000,
    0b00000000000000000000000000000000,
    0b00000000000000000000000000000000,
    0b00000000000000000000000000000000,
    0b00000000000000000000000000000000,
    0b00000000000000000000000000000000,
    0b00000000000000000000000000000000,
    0b00000000000000000000000000000000,
    0b00001111111111111111111111110000,
    0b00001111111111111111111111110000,
    0b00001111111111111111111111110000,
    0b00000000000000000000000000000000,
    0b00000000000000000000000000000000,
    0b00000000000000000000000000000000,
    0b00000000000000000000000000000000,
    0b00000000000000000000000000000000,
    0b00000000000000000000000000000000,
    0b00000000000000000000000000000000,
    0b00000000000000000000000000000000,
    0b00000000000000000000000000000000,
    0b00000000000000000000000000000000,
    0b00000000000000000000000000000000,
    0b00000000000000000000000000000000,
    0b00000000000000000000000000000000,
    0b00000000000000000000000000000000,
];

/// The module, on a float unit.
#[derive(Clone, Copy)]
pub struct Const<F: Fn(FloatOp) -> u64> {
    pub fp: F,
}

/// `const_generator`'s read-only config: the constant value it emits.
#[derive(Debug, Clone, Copy, PartialEq, Eq, Structural)]
pub struct ConstParams {
    /// The bit pattern of a single-precision number. Label "Value", default 0.
    pub value: u32,
}

/// The value that the settings give, or 0.
pub open spec fn const_value<F: Fn(FloatOp) -> u64>(
    values: Map<Seq<char>, ParamView>,
    fp: F,
) -> u32 {
    match value_of(values, "value"@) {
        Some(v) => match <F32 as FromParamValue<F>>::coerced(v, fp) {
            Some(x) => x.0,
            None => 0,
        },
        None => 0,
    }
}

impl<F: Fn(FloatOp) -> u64> SynthModuleParams<F> for ConstParams {
    open spec fn descs() -> Seq<ParamDescView> {
        seq![
            ParamDescView {
                name: "value"@,
                label: "Value"@,
                kind: KindView::Float { min: LOWEST, max: HIGHEST },
                default: ParamView::Float(0),
            },
        ]
    }

    open spec fn of_values(values: Map<Seq<char>, ParamView>, fp: F) -> ConstParams {
        ConstParams { value: const_value(values, fp) }
    }

    fn param_descs() -> (descs: Vec<ParamDesc>) {
        let desc = ParamDesc {
            name: "value".to_owned(),
            label: "Value".to_owned(),
            kind: ParamKind::Float { min: LOWEST, max: HIGHEST },
            default: ParamValue::Float(0),
        };
        let descs: Vec<ParamDesc> = vec![desc];
        assert(param_views(descs@) =~~= <Self as SynthModuleParams<F>>::descs());
        descs
    }

    fn from_values(values: &Params, fp: &F) -> (block: ConstParams) {
        let value: u32 = match values.get("value") {
            Some(v) => match <F32 as FromParamValue<F>>::from_param_value(v, fp) {
                Some(x) => x.0,
                None => 0,
            },
            None => 0,
        };
        ConstParams { value }
    }
}

impl<F: Fn(FloatOp) -> u64> ProcessFn for Const<F> {
    open spec fn ready(&self) -> bool {
        is_float_unit(self.fp)
    }

    open spec fn fits(
        &self,
        state_len: nat,
        params_len: nat,
        num_inputs: nat,
        num_outputs: nat,
    ) -> bool {
        params_len == 4 && num_outputs == 1
    }

    open spec fn outcome(&self, state: Seq<u8>, params: Seq<u8>, ctx: CtxView) -> Outcome {
        Outcome {
            state,
            outputs: ctx.outputs.update(
                0,
                Seq::new(ctx.frames as nat, |i: int| word_at(params, 0)),
            ),
            tail: Tail::Done,
        }
    }

    fn process(&self, state: &mut Vec<u8>, params: &Vec<u8>, ctx: &mut ModuleCtx) -> (tail: Tail) {
        let ghost c = ctx@;
        let value: u32 = read_u32(params, 0);
        let out: Vec<u32> = vec![value;ctx.frames];
        ctx.outputs.set(0, out);
        proof {
            assert(out@ =~= Seq::new(c.frames as nat, |i: int| value));
            assert(ctx@.outputs =~= c.outputs.update(0, out@));
        }
        Tail::Done
    }
}

impl<F: Fn(FloatOp) -> u64> ModuleType for Const<F> {
    open spec fn desc(&self, settings: Map<Seq<char>, ParamView>) -> DescView {
        DescView {
            inputs: InputsView::Fixed(Seq::empty()),
            outputs: seq!["out"@],
            params: <ConstParams as SynthModuleParams<F>>::descs(),
        }
    }

    open spec fn initial(&self, settings: Map<Seq<char>, ParamView>) -> Seq<u8> {
        Seq::empty()
    }

    open spec fn block(&self, settings: Map<Seq<char>, ParamView>) -> Seq<u8> {
        packed(seq![const_value(settings, self.fp)])
    }

    open spec fn picture(&self) -> Icon {
        ICON
    }

    fn describe(&self, params: &Params) -> (desc: ModuleDesc) {
        let outputs: Vec<PortDesc> = vec![PortDesc::sample("out")];
        let desc = ModuleDesc {
            inputs: Inputs::Fixed(Vec::new()),
            outputs,
            params: <ConstParams as SynthModuleParams<F>>::param_descs(),
        };
        proof {
            lemma_packed(seq![const_value(settings(*params), self.fp)]);
            assert(desc@ =~~= self.desc(settings(*params)));
        }
        desc
    }

    fn init_state(&self, params: &Params) -> (state: Vec<u8>) {
        Vec::new()
    }

    fn init_params(&self, params: &Params) -> (block: Vec<u8>) {
        let block: ConstParams = <ConstParams as SynthModuleParams<F>>::from_values(params, &self.fp);
        let words: Vec<u32> = vec![block.value];
        assert(words@ =~= seq![const_value(settings(*params), self.fp)]);
        state_bytes(words.as_slice())
    }

    fn icon(&self) -> (icon: Icon) {
        ICON
    }
}

} // verus!
