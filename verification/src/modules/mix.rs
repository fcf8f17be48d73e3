//! `mix`: sums its inputs. A single **variadic** input `in` wired any number of times; the
//! output is the sum of all connected inputs. With nothing wired the engine feeds one zero input,
//! so the sum is silence: no fabricated default. This is the canonical fan-in node: combining
//! signals is always an explicit `mix`, never hidden summing on an ordinary port.

use vstd::prelude::*;
use crate::float::{FloatOp, ZERO, apply32, eval32, is_float_unit};
use crate::model::{ParamView, Params, settings};
use crate::module::{DescView, Icon, Inputs, InputsView, ModuleDesc, ModuleType, PortDesc};
use crate::numbers::{Arithmetic, computes, finite, law_constants_are_their_numbers, lemma_round_exact, near, size, stands_for, value};
use crate::processing::{CtxView, ModuleCtx, Outcome, ProcessFn, Tail, shaped};

verus! {

/// The module's icon.
pub const ICON: Icon = [
    0b00000000000000000000000000000000,
    0b00000000000000000000000000000000,
    0b00000000000000000000000000000000,
    0b00000000000000000000000000000000,
    0b00000000000000000000000000000000,
    0b00000000000000000000000000000000,
    0b00000000000001100000000000000000,
    0b00000000000001100000000000000000,
    0b00000000000001100000000000000000,
    0b00000000000001100000000000000000,
    0b00000000000001100000000000000000,
    0b00000000000001100000000000000000,
    0b00000011111111111111110000000000,
    0b00000011111111111111110000000000,
    0b00000000000001100000000000000000,
    0b00000000000001100000000000000000,
    0b00000000000001100000000000000000,
    0b00000000000001100000000000000000,
    0b00000000000001100000000000000000,
    0b00000000000001100000000000000000,
    0b00000000000000000000000000000000,
    0b00000000000000000000000000000000,
    0b00000000000000000000000000000000,
    0b00000000000000000000000000000000,
    0b00000000000000000000000000000000,
    0b00000000000000000000000000000000,
    0b00000000000000000000000000000000,
    0b00000000000000000000000000000000,
    0b00000000000000000000000000000000,
    0b00000000000000000000000000000000,
    0b00000000000000000000000000000000,
    0b00000000000000000000000000000000,
];

/// The module, on a float unit.
#[derive(Clone, Copy)]
pub struct Mix<F: Fn(FloatOp) -> u64> {
    pub fp: F,
}

/// The sum of sample `i` of the first `n` inputs, from silence on.
pub open spec fn sum<F: Fn(FloatOp) -> u64>(fp: F, inputs: Seq<Seq<u32>>, i: int, n: int) -> u32
    decreases n,
{
    if n <= 0 {
        ZERO
    } else {
        eval32(fp, FloatOp::Add(sum(fp, inputs, i, n - 1), inputs[n - 1][i]))
    }
}

impl<F: Fn(FloatOp) -> u64> ProcessFn for Mix<F> {
    open spec fn ready(&self) -> bool {
        is_float_unit(self.fp)
    }

    open spec fn fits(
        &self,
        state_len: nat,
        params_len: nat,
        num_inputs: nat,
        num_outputs: nat,
    ) -> bool {
        num_outputs == 1
    }

    open spec fn outcome(&self, state: Seq<u8>, params: Seq<u8>, ctx: CtxView) -> Outcome {
        Outcome {
            state,
            outputs: ctx.outputs.update(
                0,
                Seq::new(
                    ctx.frames as nat,
                    |i: int| sum(self.fp, ctx.inputs, i, ctx.inputs.len() as int),
                ),
            ),
            tail: Tail::Done,
        }
    }

    fn process(&self, state: &mut Vec<u8>, params: &Vec<u8>, ctx: &mut ModuleCtx) -> (tail: Tail) {
        let ghost c = ctx@;
        let mut out: Vec<u32> = Vec::new();
        let mut i: usize = 0;
        while i < ctx.frames
            invariant
                i <= ctx.frames,
                is_float_unit(self.fp),
                ctx@ == c,
                shaped(c),
                out@ =~= Seq::new(
                    i as nat,
                    |i: int| sum(self.fp, c.inputs, i, c.inputs.len() as int),
                ),
            decreases ctx.frames - i,
        {
            let mut sample: u32 = ZERO;
            let mut port: usize = 0;
            while port < ctx.num_inputs()
                invariant
                    0 <= port <= c.inputs.len(),
                    i < c.frames,
                    is_float_unit(self.fp),
                    ctx@ == c,
                    shaped(c),
                    sample == sum(self.fp, c.inputs, i as int, port as int),
                decreases c.inputs.len() - port,
            {
                assert(c.inputs[port as int].len() == c.frames);
                sample = apply32(&self.fp, FloatOp::Add(sample, ctx.input(port)[i]));
                port = port + 1;
            }
            out.push(sample);
            i = i + 1;
        }
        ctx.outputs.set(0, out);
        proof {
            assert(ctx@.outputs =~= c.outputs.update(0, out@));
        }
        Tail::Done
    }
}

impl<F: Fn(FloatOp) -> u64> ModuleType for Mix<F> {
    open spec fn desc(&self, settings: Map<Seq<char>, ParamView>) -> DescView {
        DescView {
            inputs: InputsView::Variadic("in"@),
            outputs: seq!["out"@],
            params: Seq::empty(),
        }
    }

    open spec fn initial(&self, settings: Map<Seq<char>, ParamView>) -> Seq<u8> {
        Seq::empty()
    }

    open spec fn block(&self, settings: Map<Seq<char>, ParamView>) -> Seq<u8> {
        Seq::empty()
    }

    open spec fn picture(&self) -> Icon {
        ICON
    }

    fn describe(&self, params: &Params) -> (desc: ModuleDesc) {
        let outputs: Vec<PortDesc> = vec![PortDesc::sample("out")];
        let desc = ModuleDesc {
            inputs: Inputs::Variadic(PortDesc::sample("in")),
            outputs,
            params: Vec::new(),
        };
        assert(desc@ =~~= self.desc(settings(*params)));
        desc
    }

    fn init_state(&self, params: &Params) -> (state: Vec<u8>) {
        Vec::new()
    }

    fn init_params(&self, params: &Params) -> (block: Vec<u8>) {
        Vec::new()
    }

    fn icon(&self) -> (icon: Icon) {
        ICON
    }
}

/// The exact sum of sample `i` of the first `n` inputs.
pub open spec fn total(inputs: Seq<Seq<u32>>, i: int, n: int) -> real
    decreases n,
{
    if n <= 0 {
        0 as real
    } else {
        total(inputs, i, n - 1) + value(inputs[n - 1][i])
    }
}

/// On a float unit that computes, a mix of inputs up to size `top` is the sum of what they stand
/// for, every input counted, but for rounding.
pub proof fn law_mix_is_the_sum<F: Fn(FloatOp) -> u64>(
    fp: F,
    m: Arithmetic,
    inputs: Seq<Seq<u32>>,
    i: int,
    top: real,
)
    requires
        computes(fp, m),
        (0 as real) <= top,
        forall|k: int|
            0 <= k < inputs.len() ==> finite(#[trigger] inputs[k][i]) && size(value(inputs[k][i]))
                <= top,
        (inputs.len() as int as real) * top + (1 as real) <= m.top,
        (inputs.len() as int as real) * (m.error * ((2 as real) + (inputs.len() as int as real)
            * top)) <= 1 as real,
    ensures
        ({
            let n = inputs.len() as int;
            let out = sum(fp, inputs, i, n);
            finite(out) && near(
                value(out),
                total(inputs, i, n),
                (n as real) * (m.error * ((2 as real) + (n as real) * top)),
            )
        }),
{
    lemma_sum(fp, m, inputs, i, top, inputs.len() as int);
}

proof fn lemma_sum<F: Fn(FloatOp) -> u64>(
    fp: F,
    m: Arithmetic,
    inputs: Seq<Seq<u32>>,
    i: int,
    top: real,
    n: int,
)
    requires
        computes(fp, m),
        (0 as real) <= top,
        0 <= n <= inputs.len(),
        forall|k: int|
            0 <= k < inputs.len() ==> finite(#[trigger] inputs[k][i]) && size(value(inputs[k][i]))
                <= top,
        (inputs.len() as int as real) * top + (1 as real) <= m.top,
        (inputs.len() as int as real) * (m.error * ((2 as real) + (inputs.len() as int as real)
            * top)) <= 1 as real,
    ensures
        finite(sum(fp, inputs, i, n)),
        size(total(inputs, i, n)) <= (n as real) * top,
        near(
            value(sum(fp, inputs, i, n)),
            total(inputs, i, n),
            (n as real) * (m.error * ((2 as real) + (inputs.len() as int as real) * top)),
        ),
    decreases n,
{
    law_constants_are_their_numbers();
    let all = inputs.len() as int as real;
    let e = m.error;
    let by = e * ((2 as real) + all * top);
    let k = n as real;
    if n <= 0 {
        assert(k * top == 0 as real && k * by == 0 as real) by (nonlinear_arith)
            requires
                k == 0 as real,
        ;
    } else {
        lemma_sum(fp, m, inputs, i, top, n - 1);
        let j = (n - 1) as real;
        let before = value(sum(fp, inputs, i, n - 1));
        let x = value(inputs[n - 1][i]);
        assert(finite(inputs[n - 1][i]));
        let y = before + x;
        assert(k == j + (1 as real) && k <= all);
        assert(k * top == j * top + top && k * by == j * by + by && k * top <= all * top && (
        0 as real) <= by && j * by <= all * by && (0 as real) <= all * top) by (nonlinear_arith)
            requires
                k == j + (1 as real),
                (0 as real) <= j,
                k <= all,
                (0 as real) <= top,
                (0 as real) <= e,
                by == e * ((2 as real) + all * top),
        {
            assert((0 as real) <= all * top);
            assert((0 as real) <= by);
        }
        assert(size(y) <= all * top + (1 as real));
        let out = sum(fp, inputs, i, n);
        assert(stands_for(m, out, y));
        assert(near(value(out), y, e * ((1 as real) + size(y))));
        assert(e * ((1 as real) + size(y)) <= by) by (nonlinear_arith)
            requires
                by == e * ((2 as real) + all * top),
                size(y) <= all * top + (1 as real),
                (0 as real) <= e,
        ;
    }
}

/// On a float unit that computes, one input alone is passed on as it is.
pub proof fn law_single_input_passes<F: Fn(FloatOp) -> u64>(
    fp: F,
    m: Arithmetic,
    inputs: Seq<Seq<u32>>,
    i: int,
)
    requires
        computes(fp, m),
        inputs.len() == 1,
        finite(inputs[0][i]),
        size(value(inputs[0][i])) <= m.top,
    ensures
        finite(sum(fp, inputs, i, 1)),
        value(sum(fp, inputs, i, 1)) == value(inputs[0][i]),
{
    law_constants_are_their_numbers();
    reveal_with_fuel(sum, 2);
    lemma_round_exact(m, inputs[0][i]);
    let x = value(inputs[0][i]);
    assert((0 as real) + x == x);
    assert(stands_for(m, sum(fp, inputs, i, 1), value(ZERO) + x));
}

} // verus!
