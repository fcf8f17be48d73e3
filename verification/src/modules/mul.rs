//! `mul`: multiplies its inputs (a VCA when one is an envelope). A single **variadic** input
//! `in` wired any number of times; the output is the product of all connected inputs. With nothing
//! wired the engine feeds one zero input, so the product is silence: there is no fabricated
//! default.

use vstd::prelude::*;
use crate::float::{FloatOp, ONE, ZERO, apply32, eval32, is_float_unit};
use crate::model::{ParamView, Params, settings};
use crate::module::{DescView, Icon, Inputs, InputsView, ModuleDesc, ModuleType, PortDesc};
use crate::numbers::{Arithmetic, computes, finite, law_constants_are_their_numbers, near, size, stands_for, value};
use crate::processing::{CtxView, ModuleCtx, Outcome, ProcessFn, Tail, shaped};
use crate::wav::MINUS_ONE;

verus! {

/// The module's icon.
pub const ICON: Icon = [
    0b00000000000000000000000000000000,
    0b00000000000000000000000000000000,
    0b00000000000000000000000000000000,
    0b00000000000000000000000000000000,
    0b00000000000000000000000000000000,
    0b00000000000000000000000000000000,
    0b00000000000000000000000000000000,
    0b00000001100000000000000011000000,
    0b00000001110000000000000111000000,
    0b00000000111000000000001110000000,
    0b00000000011100000000011100000000,
    0b00000000001110000000111000000000,
    0b00000000000111000001110000000000,
    0b00000000000011100011100000000000,
    0b00000000000001110111000000000000,
    0b00000000000000111110000000000000,
    0b00000000000000011100000000000000,
    0b00000000000000111110000000000000,
    0b00000000000001110111000000000000,
    0b00000000000011100011100000000000,
    0b00000000000111000001110000000000,
    0b00000000001110000000111000000000,
    0b00000000011100000000011100000000,
    0b00000000111000000000001110000000,
    0b00000001110000000000000111000000,
    0b00000001100000000000000011000000,
    0b00000000000000000000000000000000,
    0b00000000000000000000000000000000,
    0b00000000000000000000000000000000,
    0b00000000000000000000000000000000,
    0b00000000000000000000000000000000,
    0b00000000000000000000000000000000,
];

/// The module, on a float unit.
#[derive(Clone, Copy)]
pub struct Mul<F: Fn(FloatOp) -> u64> {
    pub fp: F,
}

/// The product of sample `i` of the first `n` inputs.
pub open spec fn product<F: Fn(FloatOp) -> u64>(
    fp: F,
    inputs: Seq<Seq<u32>>,
    i: int,
    n: int,
) -> u32
    decreases n,
{
    if n <= 1 {
        inputs[0][i]
    } else {
        eval32(fp, FloatOp::Mul(product(fp, inputs, i, n - 1), inputs[n - 1][i]))
    }
}

impl<F: Fn(FloatOp) -> u64> ProcessFn for Mul<F> {
    open spec fn ready(&self) -> bool {
        is_float_unit(self.fp)
    }

    open spec fn fits(
        &self,
        state_len: nat,
        params_len: nat,
        num_inputs: nat,
        num_outputs: nat,
    ) -> bool {
        num_inputs >= 1 && num_outputs == 1
    }

    open spec fn outcome(&self, state: Seq<u8>, params: Seq<u8>, ctx: CtxView) -> Outcome {
        Outcome {
            state,
            outputs: ctx.outputs.update(
                0,
                Seq::new(
                    ctx.frames as nat,
                    |i: int| product(self.fp, ctx.inputs, i, ctx.inputs.len() as int),
                ),
            ),
            tail: Tail::Done,
        }
    }

    fn process(&self, state: &mut Vec<u8>, params: &Vec<u8>, ctx: &mut ModuleCtx) -> (tail: Tail) {
        let ghost c = ctx@;
        let mut out: Vec<u32> = Vec::new();
        let mut i: usize = 0;
        while i < ctx.frames
            invariant
                i <= ctx.frames,
                is_float_unit(self.fp),
                ctx@ == c,
                shaped(c),
                c.inputs.len() >= 1,
                out@ =~= Seq::new(
                    i as nat,
                    |i: int| product(self.fp, c.inputs, i, c.inputs.len() as int),
                ),
            decreases ctx.frames - i,
        {
            let mut sample: u32 = ctx.input(0)[i];
            let mut port: usize = 1;
            while port < ctx.num_inputs()
                invariant
                    1 <= port <= c.inputs.len(),
                    i < c.frames,
                    is_float_unit(self.fp),
                    ctx@ == c,
                    shaped(c),
                    sample == product(self.fp, c.inputs, i as int, port as int),
                decreases c.inputs.len() - port,
            {
                assert(c.inputs[port as int].len() == c.frames);
                sample = apply32(&self.fp, FloatOp::Mul(sample, ctx.input(port)[i]));
                port = port + 1;
            }
            out.push(sample);
            i = i + 1;
        }
        ctx.outputs.set(0, out);
        proof {
            assert(ctx@.outputs =~= c.outputs.update(0, out@));
        }
        Tail::Done
    }
}

impl<F: Fn(FloatOp) -> u64> ModuleType for Mul<F> {
    open spec fn desc(&self, settings: Map<Seq<char>, ParamView>) -> DescView {
        DescView {
            inputs: InputsView::Variadic("in"@),
            outputs: seq!["out"@],
            params: Seq::empty(),
        }
    }

    open spec fn initial(&self, settings: Map<Seq<char>, ParamView>) -> Seq<u8> {
        Seq::empty()
    }

    open spec fn block(&self, settings: Map<Seq<char>, ParamView>) -> Seq<u8> {
        Seq::empty()
    }

    open spec fn picture(&self) -> Icon {
        ICON
    }

    fn describe(&self, params: &Params) -> (desc: ModuleDesc) {
        let outputs: Vec<PortDesc> = vec![PortDesc::sample("out")];
        let desc = ModuleDesc {
            inputs: Inputs::Variadic(PortDesc::sample("in")),
            outputs,
            params: Vec::new(),
        };
        assert(desc@ =~~= self.desc(settings(*params)));
        desc
    }

    fn init_state(&self, params: &Params) -> (state: Vec<u8>) {
        Vec::new()
    }

    fn init_params(&self, params: &Params) -> (block: Vec<u8>) {
        Vec::new()
    }

    fn icon(&self) -> (icon: Icon) {
        ICON
    }
}

/// The exact product of sample `i` of the first `n` inputs.
pub open spec fn whole(inputs: Seq<Seq<u32>>, i: int, n: int) -> real
    decreases n,
{
    if n <= 0 {
        1 as real
    } else {
        whole(inputs, i, n - 1) * value(inputs[n - 1][i])
    }
}

/// On a float unit that computes, inputs between -1 and 1 give the product of what they stand for,
/// every input counted, but for rounding; and one input of 0 silences the rest.
pub proof fn law_mul_is_the_product<F: Fn(FloatOp) -> u64>(
    fp: F,
    m: Arithmetic,
    inputs: Seq<Seq<u32>>,
    i: int,
    n: int,
)
    requires
        computes(fp, m),
        1 <= n <= inputs.len(),
        forall|k: int|
            0 <= k < n ==> finite(#[trigger] inputs[k][i]) && size(value(inputs[k][i]))
                <= 1 as real,
    ensures
        ({
            let out = product(fp, inputs, i, n);
            &&& finite(out)
            &&& size(value(out)) <= 1 as real
            &&& size(whole(inputs, i, n)) <= 1 as real
            &&& near(
                value(out),
                whole(inputs, i, n),
                ((n - 1) as real) * ((2 as real) * m.error),
            )
            &&& forall|k: int|
                0 <= k < n && value(#[trigger] inputs[k][i]) == 0 as real ==> value(out)
                    == 0 as real
        }),
    decreases n,
{
    law_constants_are_their_numbers();
    let e2 = (2 as real) * m.error;
    let x = value(inputs[n - 1][i]);
    assert(finite(inputs[n - 1][i]));
    if n == 1 {
        reveal_with_fuel(whole, 2);
        let one = 1 as real;
        assert(one * x == x) by (nonlinear_arith)
            requires
                one == 1 as real,
        ;
        let none = (n - 1) as real;
        assert(none * e2 == 0 as real) by (nonlinear_arith)
            requires
                none == 0 as real,
        ;
    } else {
        law_mul_is_the_product(fp, m, inputs, i, n - 1);
        let p = value(product(fp, inputs, i, n - 1));
        let w = whole(inputs, i, n - 1);
        let y = p * x;
        assert(-(1 as real) <= y && y <= 1 as real && (p == 0 as real || x == 0 as real ==> y
            == 0 as real)) by (nonlinear_arith)
            requires
                y == p * x,
                -(1 as real) <= p,
                p <= 1 as real,
                -(1 as real) <= x,
                x <= 1 as real,
        ;
        let out = product(fp, inputs, i, n);
        assert(stands_for(m, out, y));
        assert(value(ONE) == 1 as real && value(MINUS_ONE) == -(1 as real) && value(ZERO)
            == 0 as real);
        assert(value(out) <= value(ONE) && value(MINUS_ONE) <= value(out));
        assert(y == 0 as real ==> value(out) == value(ZERO));
        let by = ((n - 2) as real) * e2;
        let c = p - w;
        let v = w * x;
        assert(y - v == c * x && -by <= c * x && c * x <= by && -(1 as real) <= v && v <= 1 as real)
            by (nonlinear_arith)
            requires
                y == p * x,
                v == w * x,
                c == p - w,
                -by <= c,
                c <= by,
                -(1 as real) <= x,
                x <= 1 as real,
                -(1 as real) <= w,
                w <= 1 as real,
        ;
        let e = m.error;
        assert(e * ((1 as real) + size(y)) <= e2) by (nonlinear_arith)
            requires
                size(y) <= 1 as real,
                (0 as real) <= e,
                e2 == (2 as real) * e,
        ;
        let j = (n - 2) as real;
        let k = (n - 1) as real;
        assert(k * e2 == j * e2 + e2) by (nonlinear_arith)
            requires
                k == j + (1 as real),
        ;
        assert forall|k: int| 0 <= k < n && value(#[trigger] inputs[k][i]) == 0 as real implies value(
            out,
        ) == 0 as real by {
            if k < n - 1 {
                assert(p == 0 as real);
            }
        }
    }
}

/// On a float unit that computes, one more input multiplies what came before it, whatever their
/// sizes; the first is taken as it is.
pub proof fn law_inputs_multiply<F: Fn(FloatOp) -> u64>(
    fp: F,
    m: Arithmetic,
    inputs: Seq<Seq<u32>>,
    i: int,
    n: int,
)
    requires
        computes(fp, m),
        1 <= n < inputs.len(),
        finite(product(fp, inputs, i, n)),
        finite(inputs[n][i]),
        size(value(product(fp, inputs, i, n)) * value(inputs[n][i])) <= m.top,
    ensures
        product(fp, inputs, i, 1) == inputs[0][i],
        value(product(fp, inputs, i, n + 1)) == (m.round)(
            value(product(fp, inputs, i, n)) * value(inputs[n][i]),
        ),
{
    assert(stands_for(
        m,
        product(fp, inputs, i, n + 1),
        value(product(fp, inputs, i, n)) * value(inputs[n][i]),
    ));
}

} // verus!
