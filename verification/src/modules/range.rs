//! `range`: maps bipolar `[-1, 1]` to `[low, high]`. Inputs: in, low, high.

use vstd::prelude::*;
use crate::float::{FloatOp, HALF, ONE, ZERO, apply32, eval32, is_float_unit};
use crate::model::{ParamView, Params, settings};
use crate::module::{DescView, Icon, Inputs, InputsView, ModuleDesc, ModuleType, PortDesc};
use crate::modules::held_voices::TWO;
use crate::numbers::{Arithmetic, computes, finite, law_constants_are_their_numbers, lemma_round_exact, near, size, stands_for, value};
use crate::processing::{CtxView, Module, ModuleCtx, Outcome, PrepareCfg, ProcessFn, Step, Tail, shaped};
use crate::text::spelled;

verus! {

/// The module's icon.
pub const ICON: Icon = [
    0b00000000000000000000000000000000,
    0b00000000000000000000000000000000,
    0b00000000000000000000000000000000,
    0b00000000000000000000000000000000,
    0b00000000000000000000000000000000,
    0b00000000000000000000000000000000,
    0b00000000111111111111111110000000,
    0b00000000111111111111111110000000,
    0b00000000000000001100000000000000,
    0b00000000000000011110000000000000,
    0b00000000000000111110000000000000,
    0b00000000000001111111000000000000,
    0b00000000000001111011000000000000,
    0b00000000000000011000000000000000,
    0b00000000000000011000000000000000,
    0b00000000000000011000000000000000,
    0b00000000000000011000000000000000,
    0b00000000000000011000000000000000,
    0b00000000000000011000000000000000,
    0b00000000000000011000000000000000,
    0b00000000000001111011000000000000,
    0b00000000000001111111000000000000,
    0b00000000000000111110000000000000,
    0b00000000000000011110000000000000,
    0b00000000111111111111111110000000,
    0b00000000111111111111111110000000,
    0b00000000000000000000000000000000,
    0b00000000000000000000000000000000,
    0b00000000000000000000000000000000,
    0b00000000000000000000000000000000,
    0b00000000000000000000000000000000,
    0b00000000000000000000000000000000,
];

/// The module, on a float unit.
#[derive(Clone, Copy)]
pub struct Range<F: Fn(FloatOp) -> u64> {
    pub fp: F,
}

/// `lo + (x + 1) * 0.5 * (hi - lo)`
pub open spec fn mapped<F: Fn(FloatOp) -> u64>(fp: F, x: u32, lo: u32, hi: u32) -> u32 {
    let part = eval32(fp, FloatOp::Mul(eval32(fp, FloatOp::Add(x, ONE)), HALF));
    let span = eval32(fp, FloatOp::Sub(hi, lo));
    eval32(fp, FloatOp::Add(lo, eval32(fp, FloatOp::Mul(part, span))))
}

/// Maps `n` samples.
pub open spec fn mapped_block<F: Fn(FloatOp) -> u64>(
    fp: F,
    inputs: Seq<Seq<u32>>,
    n: int,
) -> Seq<u32> {
    Seq::new(n as nat, |i: int| mapped(fp, inputs[0][i], inputs[1][i], inputs[2][i]))
}

/// Maps one sample.
pub(crate) fn map_sample<F: Fn(FloatOp) -> u64>(fp: &F, x: u32, lo: u32, hi: u32) -> (y: u32)
    requires
        is_float_unit(*fp),
    ensures
        y == mapped(*fp, x, lo, hi),
{
    let sum: u32 = apply32(fp, FloatOp::Add(x, ONE));
    let part: u32 = apply32(fp, FloatOp::Mul(sum, HALF));
    let span: u32 = apply32(fp, FloatOp::Sub(hi, lo));
    let rise: u32 = apply32(fp, FloatOp::Mul(part, span));
    apply32(fp, FloatOp::Add(lo, rise))
}

/// Maps a block.
fn map_block<F: Fn(FloatOp) -> u64>(fp: &F, ctx: &ModuleCtx) -> (out: Vec<u32>)
    requires
        is_float_unit(*fp),
        ctx@.inputs.len() == 3,
        shaped(ctx@),
    ensures
        out@ == mapped_block(*fp, ctx@.inputs, ctx@.frames as int),
{
    let ghost c = ctx@;
    let mut out: Vec<u32> = Vec::new();
    let mut i: usize = 0;
    while i < ctx.frames
        invariant
            i <= ctx.frames,
            is_float_unit(*fp),
            ctx@ == c,
            c.inputs.len() == 3,
            shaped(c),
            out@ =~= mapped_block(*fp, c.inputs, i as int),
        decreases ctx.frames - i,
    {
        out.push(map_sample(fp, ctx.inputs[0][i], ctx.inputs[1][i], ctx.inputs[2][i]));
        i = i + 1;
    }
    out
}

impl<F: Fn(FloatOp) -> u64> Range<F> {
    /// The module, on the given float unit.
    pub fn new(fp: F) -> (range: Range<F>)
        ensures
            range == (Range { fp }),
    {
        Range { fp }
    }
}

impl<F: Fn(FloatOp) -> u64> ProcessFn for Range<F> {
    open spec fn ready(&self) -> bool {
        is_float_unit(self.fp)
    }

    open spec fn fits(
        &self,
        state_len: nat,
        params_len: nat,
        num_inputs: nat,
        num_outputs: nat,
    ) -> bool {
        num_inputs == 3 && num_outputs == 1
    }

    open spec fn outcome(&self, state: Seq<u8>, params: Seq<u8>, ctx: CtxView) -> Outcome {
        Outcome {
            state,
            outputs: ctx.outputs.update(
                0,
                mapped_block(self.fp, ctx.inputs, ctx.frames as int),
            ),
            tail: Tail::Done,
        }
    }

    fn process(&self, state: &mut Vec<u8>, params: &Vec<u8>, ctx: &mut ModuleCtx) -> (tail: Tail) {
        let ghost c = ctx@;
        let out = map_block(&self.fp, ctx);
        ctx.outputs.set(0, out);
        proof {
            assert(ctx@.outputs =~= c.outputs.update(0, out@));
        }
        Tail::Done
    }
}

impl<F: Fn(FloatOp) -> u64> ModuleType for Range<F> {
    open spec fn desc(&self, settings: Map<Seq<char>, ParamView>) -> DescView {
        DescView {
            inputs: InputsView::Fixed(seq!["in"@, "low"@, "high"@]),
            outputs: seq!["out"@],
            params: Seq::empty(),
        }
    }

    open spec fn initial(&self, settings: Map<Seq<char>, ParamView>) -> Seq<u8> {
        Seq::empty()
    }

    open spec fn block(&self, settings: Map<Seq<char>, ParamView>) -> Seq<u8> {
        Seq::empty()
    }

    open spec fn picture(&self) -> Icon {
        ICON
    }

    fn describe(&self, params: &Params) -> (desc: ModuleDesc) {
        let inputs: Vec<PortDesc> = vec![
            PortDesc::sample("in"),
            PortDesc::sample("low"),
            PortDesc::sample("high"),
        ];
        let outputs: Vec<PortDesc> = vec![PortDesc::sample("out")];
        let desc = ModuleDesc { inputs: Inputs::Fixed(inputs), outputs, params: Vec::new() };
        assert(desc@ =~~= self.desc(settings(*params)));
        desc
    }

    fn init_state(&self, params: &Params) -> (state: Vec<u8>) {
        Vec::new()
    }

    fn init_params(&self, params: &Params) -> (block: Vec<u8>) {
        Vec::new()
    }

    fn icon(&self) -> (icon: Icon) {
        ICON
    }
}

impl<F: Fn(FloatOp) -> u64> Module for Range<F> {
    open spec fn able(&self) -> bool {
        is_float_unit(self.fp)
    }

    open spec fn ins(&self) -> Seq<Seq<char>> {
        seq!["in"@, "low"@, "high"@]
    }

    open spec fn outs(&self) -> Seq<Seq<char>> {
        seq!["out"@]
    }

    open spec fn step(self, ctx: CtxView) -> Step<Range<F>> {
        Step {
            module: self,
            outputs: ctx.outputs.update(0, mapped_block(self.fp, ctx.inputs, ctx.frames as int)),
            tail: Tail::Done,
        }
    }

    fn prepare(&mut self, cfg: &PrepareCfg) {
    }

    fn reset(&mut self) {
    }

    fn input_ports(&self) -> (names: Vec<String>) {
        let names: Vec<String> = vec!["in".to_owned(), "low".to_owned(), "high".to_owned()];
        assert(spelled(names@) =~= self.ins());
        names
    }

    fn output_ports(&self) -> (names: Vec<String>) {
        let names: Vec<String> = vec!["out".to_owned()];
        assert(spelled(names@) =~= self.outs());
        names
    }

    fn process(&mut self, ctx: &mut ModuleCtx) -> (tail: Tail) {
        let ghost c = ctx@;
        let out = map_block(&self.fp, ctx);
        ctx.outputs.set(0, out);
        assert(ctx@.outputs =~= c.outputs.update(0, out@));
        Tail::Done
    }
}

/// On a float unit that computes, a sample between -1 and 1 comes out where it lies between `lo`
/// and `hi`, but for rounding: -1 is `lo` itself, 1 is `hi`, and 0 is half way between. `top` is
/// the largest size of the two ends.
pub proof fn law_range_is_linear<F: Fn(FloatOp) -> u64>(
    fp: F,
    m: Arithmetic,
    x: u32,
    lo: u32,
    hi: u32,
    top: real,
)
    requires
        computes(fp, m),
        finite(x),
        finite(lo),
        finite(hi),
        size(value(x)) <= 1 as real,
        size(value(lo)) <= top,
        size(value(hi)) <= top,
        (16 as real) * top + (16 as real) <= m.top,
    ensures
        ({
            let y = mapped(fp, x, lo, hi);
            &&& finite(y)
            &&& near(
                value(y),
                value(lo) + (value(x) + (1 as real)) / (2 as real) * (value(hi) - value(lo)),
                m.error * ((16 as real) + (64 as real) * top),
            )
            &&& value(x) == -(1 as real) ==> value(y) == value(lo)
        }),
{
    law_constants_are_their_numbers();
    let e = m.error;
    let s = eval32(fp, FloatOp::Add(x, ONE));
    let a = value(x) + (1 as real);
    assert(stands_for(m, s, a));
    assert(value(TWO) == 2 as real && value(ZERO) == 0 as real);
    assert(value(ZERO) <= value(s) && value(s) <= value(TWO));
    lemma_close(e, size(a), 2 as real);
    let part = eval32(fp, FloatOp::Mul(s, HALF));
    let b = value(s) * ((1 as real) / (2 as real));
    assert(value(HALF) == (1 as real) / (2 as real));
    assert(b == value(s) / (2 as real));
    assert(stands_for(m, part, b));
    assert(value(ZERO) <= value(part) && value(part) <= value(ONE));
    lemma_close(e, size(b), 1 as real);
    let p = value(part);
    let p0 = a / (2 as real);
    assert(near(p, p0, (4 as real) * e));
    let span = eval32(fp, FloatOp::Sub(hi, lo));
    let d0 = value(hi) - value(lo);
    assert(stands_for(m, span, d0));
    let d = value(span);
    lemma_close(e, size(d0), (2 as real) * top);
    let et = e * top;
    assert(e * ((1 as real) + (2 as real) * top) == e + (2 as real) * et && (0 as real) <= et && et
        <= top) by (nonlinear_arith)
        requires
            et == e * top,
            (0 as real) <= e,
            e <= 1 as real,
            (0 as real) <= top,
    ;
    assert(size(d) <= (4 as real) * top + (1 as real));
    let rise = eval32(fp, FloatOp::Mul(part, span));
    let q = p * d;
    let w = size(d);
    assert(-w <= q && q <= w) by (nonlinear_arith)
        requires
            q == p * d,
            (0 as real) <= p,
            p <= 1 as real,
            -w <= d,
            d <= w,
    ;
    assert(stands_for(m, rise, q));
    lemma_close(e, size(q), (4 as real) * top + (1 as real));
    assert(e * ((1 as real) + ((4 as real) * top + (1 as real))) == (2 as real) * e + (4 as real)
        * et) by (nonlinear_arith)
        requires
            et == e * top,
    ;
    let q0 = p0 * d0;
    let c = p - p0;
    let g = d - d0;
    assert(q - q0 == c * d + p0 * g) by (nonlinear_arith)
        requires
            q == p * d,
            q0 == p0 * d0,
            c == p - p0,
            g == d - d0,
    ;
    let big = (4 as real) * top + (1 as real);
    let e4 = (4 as real) * e;
    assert(-(e4 * big) <= c * d && c * d <= e4 * big) by (nonlinear_arith)
        requires
            -e4 <= c,
            c <= e4,
            -big <= d,
            d <= big,
            (0 as real) <= e4,
            (0 as real) <= big,
    ;
    assert(e4 * big == (16 as real) * et + (4 as real) * e) by (nonlinear_arith)
        requires
            e4 == (4 as real) * e,
            big == (4 as real) * top + (1 as real),
            et == e * top,
    ;
    let h = e + (2 as real) * et;
    assert(-h <= p0 * g && p0 * g <= h) by (nonlinear_arith)
        requires
            (0 as real) <= p0,
            p0 <= 1 as real,
            -h <= g,
            g <= h,
    ;
    let y = mapped(fp, x, lo, hi);
    let l = value(lo) + value(rise);
    assert(size(l) <= (10 as real) * top + (4 as real));
    assert(stands_for(m, y, l));
    lemma_close(e, size(l), (10 as real) * top + (4 as real));
    assert(e * ((1 as real) + ((10 as real) * top + (4 as real))) == (5 as real) * e + (10 as real)
        * et) by (nonlinear_arith)
        requires
            et == e * top,
    ;
    assert(e * ((16 as real) + (64 as real) * top) == (16 as real) * e + (64 as real) * et)
        by (nonlinear_arith)
        requires
            et == e * top,
    ;
    if value(x) == -(1 as real) {
        assert(value(s) == value(ZERO));
        assert(b == 0 as real);
        assert(p == value(ZERO));
        assert(q == 0 as real) by (nonlinear_arith)
            requires
                q == p * d,
                p == 0 as real,
        ;
        assert(value(rise) == value(ZERO));
        lemma_round_exact(m, lo);
    }
}

/// The error of a rounded number, where the number is no larger than `top`.
proof fn lemma_close(e: real, x: real, top: real)
    requires
        (0 as real) <= e,
        x <= top,
    ensures
        e * ((1 as real) + x) <= e * ((1 as real) + top),
{
    assert(e * ((1 as real) + x) <= e * ((1 as real) + top)) by (nonlinear_arith)
        requires
            (0 as real) <= e,
            x <= top,
    ;
}

} // verus!
