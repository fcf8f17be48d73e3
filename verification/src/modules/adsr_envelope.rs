//! `adsr_envelope`: gate-driven linear ADSR. Inputs: gate, attack(s), decay(s), sustain(level),
//! release(s). Output: envelope level in `[0, 1]`. Reports `Tail::Active` until the release
//! completes, so it keeps a released voice alive through its tail.

use vstd::prelude::*;
use crate::bytes::{lemma_packed, packed, read_u32, word_at};
use crate::float::{FloatOp, ONE, ZERO, apply32, check, eval32, in_unit, is_float_unit, is_monotone, is_ordered, is_so, le};
use crate::model::{ParamView, Params, settings};
use crate::module::{DescView, Icon, Inputs, InputsView, ModuleDesc, ModuleType, PortDesc};
use crate::numbers::{Arithmetic, compares, computes, finite, law_constants_are_their_numbers, near, size, stands_for, value};
use crate::plan::state_bytes;
use crate::processing::{CtxView, ModuleCtx, Outcome, ProcessFn, Tail, shaped};

verus! {

/// The module's icon.
pub const ICON: Icon = [
    0b00000000000000000000000000000000,
    0b00000000000000000000000000000000,
    0b00000000000000000000000000000000,
    0b00000000000000000000000000000000,
    0b00000000000000000000000000000000,
    0b00000000011000000000000000000000,
    0b00000000011100000000000000000000,
    0b00000000011100000000000000000000,
    0b00000000111110000000000000000000,
    0b00000000110110000000000000000000,
    0b00000000110111000000000000000000,
    0b00000000110011000000000000000000,
    0b00000001110011100000000000000000,
    0b00000001100001100000000000000000,
    0b00000001100001110000000000000000,
    0b00000001100000111111111000000000,
    0b00000001100000111111111100000000,
    0b00000011100000000000001100000000,
    0b00000011000000000000001110000000,
    0b00000011000000000000000110000000,
    0b00000011000000000000000111000000,
    0b00000111000000000000000011000000,
    0b00000110000000000000000011100000,
    0b00000110000000000000000001100000,
    0b00000110000000000000000001110000,
    0b00001110000000000000000000110000,
    0b00001100000000000000000000111000,
    0b00001100000000000000000000011000,
    0b00001100000000000000000000011000,
    0b00000000000000000000000000000000,
    0b00000000000000000000000000000000,
    0b00000000000000000000000000000000,
];

/// The module, on a float unit.
#[derive(Clone, Copy)]
pub struct Adsr<F: Fn(FloatOp) -> u64> {
    pub fp: F,
}

pub const IDLE: u32 = 0;

pub const ATTACK: u32 = 1;

pub const DECAY: u32 = 2;

pub const SUSTAIN: u32 = 3;

pub const RELEASE: u32 = 4;

/// A voice's state. Levels and rates are bit patterns of single-precision numbers.
#[derive(Debug, Clone, Copy, PartialEq, Eq, Structural)]
pub struct AdsrState {
    /// 0 idle, 1 attack, 2 decay, 3 sustain, 4 release.
    pub stage: u32,
    pub level: u32,
    pub prev_gate: u32,
    /// Per-sample decrement captured at the release edge (linear from the held level).
    pub rel_rate: u32,
}

/// One sample of the five inputs.
#[derive(Debug, Clone, Copy, PartialEq, Eq, Structural)]
pub struct AdsrInput {
    pub gate: u32,
    pub attack: u32,
    pub decay: u32,
    pub sustain: u32,
    pub release: u32,
}

/// Gate edge: from closed to open.
pub open spec fn opens<F: Fn(FloatOp) -> u64>(fp: F, s: AdsrState, x: AdsrInput) -> bool {
    is_so(fp, FloatOp::Le(s.prev_gate, ZERO)) && is_so(fp, FloatOp::Lt(ZERO, x.gate))
}

/// Gate edge: from open to closed, on a sounding envelope.
pub open spec fn closes<F: Fn(FloatOp) -> u64>(fp: F, s: AdsrState, x: AdsrInput) -> bool {
    is_so(fp, FloatOp::Lt(ZERO, s.prev_gate)) && is_so(fp, FloatOp::Le(x.gate, ZERO)) && s.stage
        != IDLE
}

/// The decrement per sample that a release from `level` takes.
pub open spec fn release_rate<F: Fn(FloatOp) -> u64>(
    fp: F,
    level: u32,
    release: u32,
    dt: u32,
) -> u32 {
    let rel = eval32(fp, FloatOp::Max(release, ZERO));
    if is_so(fp, FloatOp::Lt(ZERO, rel)) {
        eval32(fp, FloatOp::Div(eval32(fp, FloatOp::Mul(level, dt)), rel))
    } else {
        level
    }
}

/// The state once gate edges are seen: an opening gate starts the attack, a closing one
/// the release.
pub open spec fn after_edge<F: Fn(FloatOp) -> u64>(
    fp: F,
    s: AdsrState,
    x: AdsrInput,
    dt: u32,
) -> AdsrState {
    if opens(fp, s, x) {
        AdsrState { stage: ATTACK, prev_gate: x.gate, ..s }
    } else if closes(fp, s, x) {
        AdsrState {
            stage: RELEASE,
            rel_rate: release_rate(fp, s.level, x.release, dt),
            prev_gate: x.gate,
            ..s
        }
    } else {
        AdsrState { prev_gate: x.gate, ..s }
    }
}

/// The sustain level, kept between 0 and 1.
pub open spec fn sustain_level<F: Fn(FloatOp) -> u64>(fp: F, x: AdsrInput) -> u32 {
    eval32(fp, FloatOp::Clamp(x.sustain, ZERO, ONE))
}

/// A sample of the decay. A decay of no length is over at once.
pub open spec fn decayed<F: Fn(FloatOp) -> u64>(
    fp: F,
    s: AdsrState,
    x: AdsrInput,
    dt: u32,
) -> AdsrState {
    let sus = sustain_level(fp, x);
    let d = eval32(fp, FloatOp::Max(x.decay, ZERO));
    if is_so(fp, FloatOp::Le(d, ZERO)) {
        AdsrState { stage: SUSTAIN, level: sus, ..s }
    } else {
        let drop = eval32(fp, FloatOp::Mul(dt, eval32(fp, FloatOp::Sub(ONE, sus))));
        let level = eval32(fp, FloatOp::Sub(s.level, eval32(fp, FloatOp::Div(drop, d))));
        if is_so(fp, FloatOp::Le(level, sus)) {
            AdsrState { stage: SUSTAIN, level: sus, ..s }
        } else {
            AdsrState { stage: DECAY, level, ..s }
        }
    }
}

/// A sample of the attack. An attack of no length is over at once, and the decay starts within
/// the sample.
pub open spec fn attacked<F: Fn(FloatOp) -> u64>(
    fp: F,
    s: AdsrState,
    x: AdsrInput,
    dt: u32,
) -> AdsrState {
    let a = eval32(fp, FloatOp::Max(x.attack, ZERO));
    if is_so(fp, FloatOp::Le(a, ZERO)) {
        decayed(fp, AdsrState { stage: DECAY, level: ONE, ..s }, x, dt)
    } else {
        let level = eval32(fp, FloatOp::Add(s.level, eval32(fp, FloatOp::Div(dt, a))));
        if is_so(fp, FloatOp::Le(ONE, level)) {
            AdsrState { stage: DECAY, level: ONE, ..s }
        } else {
            AdsrState { stage: ATTACK, level, ..s }
        }
    }
}

/// A sample of the release, which ends in silence.
pub open spec fn released<F: Fn(FloatOp) -> u64>(fp: F, s: AdsrState) -> AdsrState {
    let level = eval32(fp, FloatOp::Sub(s.level, s.rel_rate));
    if is_so(fp, FloatOp::Le(level, ZERO)) {
        AdsrState { stage: IDLE, level: ZERO, ..s }
    } else {
        AdsrState { level, ..s }
    }
}

/// The state one sample later.
pub open spec fn stepped<F: Fn(FloatOp) -> u64>(
    fp: F,
    s: AdsrState,
    x: AdsrInput,
    dt: u32,
) -> AdsrState {
    let t = after_edge(fp, s, x, dt);
    if t.stage == ATTACK {
        attacked(fp, t, x, dt)
    } else if t.stage == DECAY {
        decayed(fp, t, x, dt)
    } else if t.stage == SUSTAIN {
        AdsrState { level: sustain_level(fp, x), ..t }
    } else if t.stage == RELEASE {
        released(fp, t)
    } else {
        AdsrState { level: ZERO, ..t }
    }
}

/// Sample `i` of the five inputs.
pub open spec fn input_at(inputs: Seq<Seq<u32>>, i: int) -> AdsrInput {
    AdsrInput {
        gate: inputs[0][i],
        attack: inputs[1][i],
        decay: inputs[2][i],
        sustain: inputs[3][i],
        release: inputs[4][i],
    }
}

/// The state after the first `n` samples.
pub open spec fn state_after<F: Fn(FloatOp) -> u64>(
    fp: F,
    s: AdsrState,
    inputs: Seq<Seq<u32>>,
    dt: u32,
    n: int,
) -> AdsrState
    decreases n,
{
    if n <= 0 {
        s
    } else {
        stepped(fp, state_after(fp, s, inputs, dt, n - 1), input_at(inputs, n - 1), dt)
    }
}

/// The levels of the first `n` samples.
pub open spec fn envelope<F: Fn(FloatOp) -> u64>(
    fp: F,
    s: AdsrState,
    inputs: Seq<Seq<u32>>,
    dt: u32,
    n: int,
) -> Seq<u32> {
    Seq::new(n as nat, |i: int| state_after(fp, s, inputs, dt, i + 1).level)
}

/// The state that the bytes hold.
pub open spec fn unpacked(b: Seq<u8>) -> AdsrState {
    AdsrState {
        stage: word_at(b, 0),
        level: word_at(b, 4),
        prev_gate: word_at(b, 8),
        rel_rate: word_at(b, 12),
    }
}

/// The words of a state.
pub open spec fn state_words(s: AdsrState) -> Seq<u32> {
    seq![s.stage, s.level, s.prev_gate, s.rel_rate]
}

/// The seconds that a sample takes.
pub open spec fn sample_time<F: Fn(FloatOp) -> u64>(fp: F, sample_rate: u32) -> u32 {
    eval32(fp, FloatOp::Div(ONE, sample_rate))
}

impl<F: Fn(FloatOp) -> u64> Adsr<F> {
    fn see_edge(&self, s: AdsrState, x: AdsrInput, dt: u32) -> (t: AdsrState)
        requires
            is_float_unit(self.fp),
        ensures
            t == after_edge(self.fp, s, x, dt),
    {
        let fp = &self.fp;
        let mut t = s;
        if check(fp, FloatOp::Le(s.prev_gate, ZERO)) && check(fp, FloatOp::Lt(ZERO, x.gate)) {
            t.stage = ATTACK;
        } else if check(fp, FloatOp::Lt(ZERO, s.prev_gate)) && check(fp, FloatOp::Le(x.gate, ZERO))
            && s.stage != IDLE {
            t.stage = RELEASE;
            let rel: u32 = apply32(fp, FloatOp::Max(x.release, ZERO));
            t.rel_rate = if check(fp, FloatOp::Lt(ZERO, rel)) {
                let scaled: u32 = apply32(fp, FloatOp::Mul(s.level, dt));
                apply32(fp, FloatOp::Div(scaled, rel))
            } else {
                s.level
            };
        }
        t.prev_gate = x.gate;
        t
    }

    /// Advances the stages; zero-length stages (instant attack/decay) cascade within the sample
    /// (they consume no time), timed stages end it.
    fn advance(&self, s: AdsrState, x: AdsrInput, dt: u32) -> (t: AdsrState)
        requires
            is_float_unit(self.fp),
        ensures
            t == (if s.stage == ATTACK {
                attacked(self.fp, s, x, dt)
            } else if s.stage == DECAY {
                decayed(self.fp, s, x, dt)
            } else if s.stage == SUSTAIN {
                (AdsrState { level: sustain_level(self.fp, x), ..s })
            } else if s.stage == RELEASE {
                released(self.fp, s)
            } else {
                (AdsrState { level: ZERO, ..s })
            }),
    {
        let fp = &self.fp;
        let mut t = s;
        let sus: u32 = apply32(fp, FloatOp::Clamp(x.sustain, ZERO, ONE));
        if t.stage == ATTACK {
            let a: u32 = apply32(fp, FloatOp::Max(x.attack, ZERO));
            if check(fp, FloatOp::Le(a, ZERO)) {
                t.level = ONE;
                t.stage = DECAY;
            } else {
                let rise: u32 = apply32(fp, FloatOp::Div(dt, a));
                t.level = apply32(fp, FloatOp::Add(t.level, rise));
                if check(fp, FloatOp::Le(ONE, t.level)) {
                    t.level = ONE;
                    t.stage = DECAY;
                }
                return t;
            }
        }
        if t.stage == DECAY {
            let d: u32 = apply32(fp, FloatOp::Max(x.decay, ZERO));
            if check(fp, FloatOp::Le(d, ZERO)) {
                t.level = sus;
                t.stage = SUSTAIN;
            } else {
                let rest: u32 = apply32(fp, FloatOp::Sub(ONE, sus));
                let drop: u32 = apply32(fp, FloatOp::Mul(dt, rest));
                let fall: u32 = apply32(fp, FloatOp::Div(drop, d));
                t.level = apply32(fp, FloatOp::Sub(t.level, fall));
                if check(fp, FloatOp::Le(t.level, sus)) {
                    t.level = sus;
                    t.stage = SUSTAIN;
                }
                return t;
            }
        }
        if t.stage == SUSTAIN {
            t.level = sus;
        } else if t.stage == RELEASE {
            t.level = apply32(fp, FloatOp::Sub(t.level, t.rel_rate));
            if check(fp, FloatOp::Le(t.level, ZERO)) {
                t.level = ZERO;
                t.stage = IDLE;
            }
        } else {
            t.level = ZERO;
        }
        t
    }
}

impl<F: Fn(FloatOp) -> u64> ProcessFn for Adsr<F> {
    open spec fn ready(&self) -> bool {
        is_float_unit(self.fp)
    }

    open spec fn fits(
        &self,
        state_len: nat,
        params_len: nat,
        num_inputs: nat,
        num_outputs: nat,
    ) -> bool {
        state_len == 16 && num_inputs == 5 && num_outputs == 1
    }

    open spec fn outcome(&self, state: Seq<u8>, params: Seq<u8>, ctx: CtxView) -> Outcome {
        let s = unpacked(state);
        let dt = sample_time(self.fp, ctx.sample_rate);
        let n = ctx.frames as int;
        let t = state_after(self.fp, s, ctx.inputs, dt, n);
        Outcome {
            state: packed(state_words(t)),
            outputs: ctx.outputs.update(0, envelope(self.fp, s, ctx.inputs, dt, n)),
            tail: if t.stage == IDLE {
                Tail::Done
            } else {
                Tail::Active
            },
        }
    }

    fn process(&self, state: &mut Vec<u8>, params: &Vec<u8>, ctx: &mut ModuleCtx) -> (tail: Tail) {
        let ghost c = ctx@;
        let first = AdsrState {
            stage: read_u32(state, 0),
            level: read_u32(state, 4),
            prev_gate: read_u32(state, 8),
            rel_rate: read_u32(state, 12),
        };
        let dt: u32 = apply32(&self.fp, FloatOp::Div(ONE, ctx.sample_rate));
        let mut s = first;
        let mut out: Vec<u32> = Vec::new();
        let mut i: usize = 0;
        while i < ctx.frames
            invariant
                i <= ctx.frames,
                is_float_unit(self.fp),
                ctx@ == c,
                c.inputs.len() == 5,
                shaped(c),
                s == state_after(self.fp, first, c.inputs, dt, i as int),
                out@ =~= envelope(self.fp, first, c.inputs, dt, i as int),
            decreases ctx.frames - i,
        {
            let x = AdsrInput {
                gate: ctx.inputs[0][i],
                attack: ctx.inputs[1][i],
                decay: ctx.inputs[2][i],
                sustain: ctx.inputs[3][i],
                release: ctx.inputs[4][i],
            };
            assert(x == input_at(c.inputs, i as int));
            let t = self.see_edge(s, x, dt);
            s = self.advance(t, x, dt);
            out.push(s.level);
            i = i + 1;
        }
        let words: Vec<u32> = vec![s.stage, s.level, s.prev_gate, s.rel_rate];
        assert(words@ =~= state_words(s));
        *state = state_bytes(words.as_slice());
        ctx.outputs.set(0, out);
        proof {
            assert(ctx@.outputs =~= c.outputs.update(0, out@));
        }
        if s.stage == IDLE {
            Tail::Done
        } else {
            Tail::Active
        }
    }
}

/// The state of a fresh voice.
pub open spec fn idle_state() -> AdsrState {
    AdsrState { stage: IDLE, level: ZERO, prev_gate: ZERO, rel_rate: ZERO }
}

impl<F: Fn(FloatOp) -> u64> ModuleType for Adsr<F> {
    open spec fn desc(&self, settings: Map<Seq<char>, ParamView>) -> DescView {
        DescView {
            inputs: InputsView::Fixed(
                seq!["gate"@, "attack"@, "decay"@, "sustain"@, "release"@],
            ),
            outputs: seq!["out"@],
            params: Seq::empty(),
        }
    }

    open spec fn initial(&self, settings: Map<Seq<char>, ParamView>) -> Seq<u8> {
        packed(state_words(idle_state()))
    }

    open spec fn block(&self, settings: Map<Seq<char>, ParamView>) -> Seq<u8> {
        Seq::empty()
    }

    open spec fn picture(&self) -> Icon {
        ICON
    }

    fn describe(&self, params: &Params) -> (desc: ModuleDesc) {
        let inputs: Vec<PortDesc> = vec![
            PortDesc::sample("gate"),
            PortDesc::sample("attack"),
            PortDesc::sample("decay"),
            PortDesc::sample("sustain"),
            PortDesc::sample("release"),
        ];
        let outputs: Vec<PortDesc> = vec![PortDesc::sample("out")];
        let desc = ModuleDesc { inputs: Inputs::Fixed(inputs), outputs, params: Vec::new() };
        proof {
            lemma_packed(state_words(idle_state()));
            assert(desc@ =~~= self.desc(settings(*params)));
        }
        desc
    }

    fn init_state(&self, params: &Params) -> (state: Vec<u8>) {
        let words: Vec<u32> = vec![IDLE, ZERO, ZERO, ZERO];
        assert(words@ =~= state_words(idle_state()));
        state_bytes(words.as_slice())
    }

    fn init_params(&self, params: &Params) -> (block: Vec<u8>) {
        Vec::new()
    }

    fn icon(&self) -> (icon: Icon) {
        ICON
    }
}

/// A state survives being packed into the plan.
pub proof fn lemma_unpacked(s: AdsrState)
    ensures
        packed(state_words(s)).len() == 16,
        unpacked(packed(state_words(s))) == s,
{
    let ws = state_words(s);
    lemma_packed(ws);
    assert(ws[0] == s.stage && ws[1] == s.level && ws[2] == s.prev_gate && ws[3] == s.rel_rate);
}

/// The envelope keeps its voice alive if and only if it is not idle at the end of the block.
pub proof fn law_alive_until_idle<F: Fn(FloatOp) -> u64>(
    adsr: Adsr<F>,
    state: Seq<u8>,
    params: Seq<u8>,
    ctx: CtxView,
)
    ensures
        adsr.outcome(state, params, ctx).tail == Tail::Active <==> unpacked(
            adsr.outcome(state, params, ctx).state,
        ).stage != IDLE,
{
    let t = state_after(
        adsr.fp,
        unpacked(state),
        ctx.inputs,
        sample_time(adsr.fp, ctx.sample_rate),
        ctx.frames as int,
    );
    lemma_unpacked(t);
}

/// An idle envelope whose gate stays closed stays idle and silent.
pub proof fn law_idle_is_silent<F: Fn(FloatOp) -> u64>(
    fp: F,
    s: AdsrState,
    inputs: Seq<Seq<u32>>,
    dt: u32,
    n: int,
)
    requires
        s.stage == IDLE,
        0 <= n,
        forall|i: int|
            0 <= i < n ==> !is_so(fp, FloatOp::Lt(ZERO, #[trigger] input_at(inputs, i).gate)),
    ensures
        state_after(fp, s, inputs, dt, n).stage == IDLE,
        envelope(fp, s, inputs, dt, n) == Seq::new(n as nat, |i: int| ZERO),
    decreases n,
{
    if n > 0 {
        law_idle_is_silent(fp, s, inputs, dt, n - 1);
        let e = envelope(fp, s, inputs, dt, n);
        assert(!is_so(fp, FloatOp::Lt(ZERO, input_at(inputs, n - 1).gate)));
        assert forall|i: int| 0 <= i < n implies e[i] == ZERO by {
            if i < n - 1 {
                assert(envelope(fp, s, inputs, dt, n - 1)[i] == ZERO);
            }
        }
        assert(e =~= Seq::new(n as nat, |i: int| ZERO));
    } else {
        assert(envelope(fp, s, inputs, dt, n) =~= Seq::new(n as nat, |i: int| ZERO));
    }
}

/// A release goes on for as long as its level has not reached zero and no gate opens; the
/// sample on which it reaches zero leaves the envelope idle and silent.
pub proof fn law_release_ends_in_silence<F: Fn(FloatOp) -> u64>(
    fp: F,
    s: AdsrState,
    x: AdsrInput,
    dt: u32,
)
    requires
        s.stage == RELEASE,
        !opens(fp, s, x),
        !closes(fp, s, x),
    ensures
        ({
            let t = stepped(fp, s, x, dt);
            let level = eval32(fp, FloatOp::Sub(s.level, s.rel_rate));
            if is_so(fp, FloatOp::Le(level, ZERO)) {
                t.stage == IDLE && t.level == ZERO
            } else {
                t.stage == RELEASE && t.level == level
            }
        }),
{
}

/// With no attack and no decay, an opening gate puts the envelope at its sustain level within the
/// sample, and a gate that stays open holds it there.
pub proof fn law_instant_attack_reaches_sustain<F: Fn(FloatOp) -> u64>(
    fp: F,
    s: AdsrState,
    x: AdsrInput,
    dt: u32,
)
    requires
        opens(fp, s, x) || s.stage == SUSTAIN && !closes(fp, s, x),
        is_so(fp, FloatOp::Le(eval32(fp, FloatOp::Max(x.attack, ZERO)), ZERO)),
        is_so(fp, FloatOp::Le(eval32(fp, FloatOp::Max(x.decay, ZERO)), ZERO)),
    ensures
        stepped(fp, s, x, dt).stage == SUSTAIN,
        stepped(fp, s, x, dt).level == sustain_level(fp, x),
{
}

/// The level lies in `[0, 1]`, the stage is one of the five, and a release falls.
pub open spec fn in_range<F: Fn(FloatOp) -> u64>(fp: F, s: AdsrState) -> bool {
    in_unit(fp, s.level) && s.stage <= RELEASE && le(fp, ZERO, s.rel_rate)
}

proof fn lemma_decayed_in_range<F: Fn(FloatOp) -> u64>(fp: F, s: AdsrState, x: AdsrInput, dt: u32)
    requires
        is_ordered(fp),
        is_monotone(fp),
        in_range(fp, s),
        in_unit(fp, dt),
        le(fp, x.sustain, x.sustain),
    ensures
        in_range(fp, decayed(fp, s, x, dt)),
{
    let sus = sustain_level(fp, x);
    let d = eval32(fp, FloatOp::Max(x.decay, ZERO));
    assert(in_unit(fp, sus));
    if !is_so(fp, FloatOp::Le(d, ZERO)) {
        assert(le(fp, ZERO, d) && !le(fp, d, ZERO));
        let rest = eval32(fp, FloatOp::Sub(ONE, sus));
        assert(in_unit(fp, rest));
        let drop = eval32(fp, FloatOp::Mul(dt, rest));
        assert(in_unit(fp, drop));
        let fall = eval32(fp, FloatOp::Div(drop, d));
        assert(le(fp, ZERO, fall));
        let level = eval32(fp, FloatOp::Sub(s.level, fall));
        assert(le(fp, level, s.level));
        assert(le(fp, level, ONE));
        if !le(fp, level, sus) {
            assert(le(fp, sus, level));
        }
    }
}

proof fn lemma_attacked_in_range<F: Fn(FloatOp) -> u64>(fp: F, s: AdsrState, x: AdsrInput, dt: u32)
    requires
        is_ordered(fp),
        is_monotone(fp),
        in_range(fp, s),
        in_unit(fp, dt),
        le(fp, x.sustain, x.sustain),
    ensures
        in_range(fp, attacked(fp, s, x, dt)),
{
    let a = eval32(fp, FloatOp::Max(x.attack, ZERO));
    assert(le(fp, ONE, ONE));
    if is_so(fp, FloatOp::Le(a, ZERO)) {
        lemma_decayed_in_range(fp, AdsrState { stage: DECAY, level: ONE, ..s }, x, dt);
    } else {
        assert(le(fp, ZERO, a) && !le(fp, a, ZERO));
        let rise = eval32(fp, FloatOp::Div(dt, a));
        assert(le(fp, ZERO, rise));
        let level = eval32(fp, FloatOp::Add(s.level, rise));
        assert(le(fp, s.level, level));
        assert(le(fp, ZERO, level));
        if !le(fp, ONE, level) {
            assert(le(fp, level, ONE));
        }
    }
}

proof fn lemma_released_in_range<F: Fn(FloatOp) -> u64>(fp: F, s: AdsrState)
    requires
        is_ordered(fp),
        is_monotone(fp),
        in_range(fp, s),
    ensures
        in_range(fp, released(fp, s)),
{
    let level = eval32(fp, FloatOp::Sub(s.level, s.rel_rate));
    assert(le(fp, level, s.level));
    assert(le(fp, level, ONE));
    assert(le(fp, ZERO, ZERO));
    if !le(fp, level, ZERO) {
        assert(le(fp, ZERO, level));
    }
}

proof fn lemma_stepped_in_range<F: Fn(FloatOp) -> u64>(fp: F, s: AdsrState, x: AdsrInput, dt: u32)
    requires
        is_ordered(fp),
        is_monotone(fp),
        in_range(fp, s),
        in_unit(fp, dt),
        le(fp, x.sustain, x.sustain),
    ensures
        in_range(fp, stepped(fp, s, x, dt)),
        stepped(fp, s, x, dt).prev_gate == x.gate,
{
    let t = after_edge(fp, s, x, dt);
    assert(in_range(fp, t)) by {
        let rel = eval32(fp, FloatOp::Max(x.release, ZERO));
        let scaled = eval32(fp, FloatOp::Mul(s.level, dt));
        assert(in_unit(fp, scaled));
        if is_so(fp, FloatOp::Lt(ZERO, rel)) {
            assert(le(fp, ZERO, eval32(fp, FloatOp::Div(scaled, rel))));
        }
    }
    assert(in_unit(fp, sustain_level(fp, x)));
    assert(le(fp, ZERO, ZERO));
    if t.stage == ATTACK {
        lemma_attacked_in_range(fp, t, x, dt);
    } else if t.stage == DECAY {
        lemma_decayed_in_range(fp, t, x, dt);
    } else if t.stage == RELEASE {
        lemma_released_in_range(fp, t);
    }
}

proof fn lemma_state_in_range<F: Fn(FloatOp) -> u64>(
    fp: F,
    s: AdsrState,
    inputs: Seq<Seq<u32>>,
    dt: u32,
    n: int,
)
    requires
        is_ordered(fp),
        is_monotone(fp),
        in_range(fp, s),
        in_unit(fp, dt),
        0 <= n,
        forall|i: int| 0 <= i < n ==> le(fp, #[trigger] inputs[3][i], inputs[3][i]),
    ensures
        in_range(fp, state_after(fp, s, inputs, dt, n)),
        n > 0 ==> state_after(fp, s, inputs, dt, n).prev_gate == inputs[0][n - 1],
    decreases n,
{
    if n > 0 {
        lemma_state_in_range(fp, s, inputs, dt, n - 1);
        assert(le(fp, inputs[3][n - 1], inputs[3][n - 1]));
        lemma_stepped_in_range(
            fp,
            state_after(fp, s, inputs, dt, n - 1),
            input_at(inputs, n - 1),
            dt,
        );
    }
}

/// The envelope stays in `[0, 1]`: on a float unit that orders and rounds as numbers do, at a
/// sample rate of at least 1 and with sustain samples that are numbers, every sample of a block
/// does, and so does the level that is kept for the next block. The last sample and the last gate
/// are what is kept.
pub proof fn law_level_stays_in_range<F: Fn(FloatOp) -> u64>(
    adsr: Adsr<F>,
    state: Seq<u8>,
    params: Seq<u8>,
    ctx: CtxView,
)
    requires
        is_ordered(adsr.fp),
        is_monotone(adsr.fp),
        in_range(adsr.fp, unpacked(state)),
        le(adsr.fp, ONE, ctx.sample_rate),
        ctx.inputs.len() == 5,
        ctx.outputs.len() == 1,
        forall|i: int|
            0 <= i < ctx.frames ==> le(
                adsr.fp,
                #[trigger] ctx.inputs[3][i],
                ctx.inputs[3][i],
            ),
    ensures
        ({
            let next = adsr.outcome(state, params, ctx);
            let out = next.outputs[0];
            let s = unpacked(next.state);
            &&& out.len() == ctx.frames
            &&& forall|i: int| 0 <= i < ctx.frames ==> in_unit(adsr.fp, #[trigger] out[i])
            &&& in_range(adsr.fp, s)
            &&& ctx.frames > 0 ==> s.level == out[ctx.frames - 1] && s.prev_gate
                == ctx.inputs[0][ctx.frames - 1]
        }),
{
    let fp = adsr.fp;
    let first = unpacked(state);
    let dt = sample_time(fp, ctx.sample_rate);
    let n = ctx.frames as int;
    assert(in_unit(fp, dt));
    lemma_state_in_range(fp, first, ctx.inputs, dt, n);
    lemma_unpacked(state_after(fp, first, ctx.inputs, dt, n));
    let out = adsr.outcome(state, params, ctx).outputs[0];
    assert forall|i: int| 0 <= i < n implies in_unit(fp, #[trigger] out[i]) by {
        lemma_state_in_range(fp, first, ctx.inputs, dt, i + 1);
    }
}

/// A fresh voice's envelope starts in range.
pub proof fn law_idle_is_in_range<F: Fn(FloatOp) -> u64>(fp: F)
    requires
        is_ordered(fp),
    ensures
        in_range(fp, idle_state()),
{
    assert(le(fp, ZERO, ONE));
}

/// The state is a number's: level and release rate are numbers, the level from 0 to 1.
pub open spec fn numeric(s: AdsrState) -> bool {
    finite(s.level) && (0 as real) <= value(s.level) && value(s.level) <= 1 as real && finite(
        s.rel_rate,
    ) && finite(s.prev_gate)
}

/// The sustain level as a number: what is asked for, from 0 to 1.
pub open spec fn sustain_of(x: AdsrInput) -> real {
    if value(x.sustain) < 0 as real {
        0 as real
    } else if value(x.sustain) > 1 as real {
        1 as real
    } else {
        value(x.sustain)
    }
}

/// All inputs are numbers.
pub open spec fn numbers_in(x: AdsrInput) -> bool {
    finite(x.gate) && finite(x.attack) && finite(x.decay) && finite(x.sustain) && finite(x.release)
}

/// How far a timed stage may be off per sample, where the stage lasts `time` seconds.
pub open spec fn stage_error(m: Arithmetic, time: real) -> real {
    m.error * ((8 as real) + (8 as real) / time)
}

proof fn lemma_error(e: real, x: real, top: real)
    requires
        (0 as real) <= e,
        (0 as real) <= x,
        x <= top,
    ensures
        e * ((1 as real) + x) <= e * ((1 as real) + top),
        (0 as real) <= e * ((1 as real) + x),
{
    assert(e * ((1 as real) + x) <= e * ((1 as real) + top) && (0 as real) <= e * ((1 as real) + x))
        by (nonlinear_arith)
        requires
            (0 as real) <= e,
            (0 as real) <= x,
            x <= top,
    ;
}

/// Dividing by a time scales what is near.
proof fn lemma_over(x: real, y: real, by: real, d: real)
    requires
        near(x, y, by),
        d > 0 as real,
    ensures
        near(x / d, y / d, by / d),
{
    let i = (1 as real) / d;
    let c = x - y;
    assert(x / d - y / d == c * i && -(by * i) <= c * i && c * i <= by * i && by * i == by / d)
        by (nonlinear_arith)
        requires
            i == (1 as real) / d,
            d > 0 as real,
            c == x - y,
            -by <= c,
            c <= by,
    ;
}

/// A sample of the decay with a time of its own falls by what is left to fall from 1, times the
/// part of the decay time that the sample takes; or it has reached the sustain level.
pub proof fn law_decay_falls_evenly<F: Fn(FloatOp) -> u64>(
    fp: F,
    m: Arithmetic,
    s: AdsrState,
    x: AdsrInput,
    dt: u32,
)
    requires
        computes(fp, m),
        numeric(s),
        numbers_in(x),
        finite(dt),
        (0 as real) <= value(dt),
        value(dt) <= 1 as real,
        value(x.decay) > 0 as real,
        (2 as real) / value(x.decay) <= m.top - (4 as real),
    ensures
        ({
            let t = decayed(fp, s, x, dt);
            let fall = ((1 as real) - sustain_of(x)) * value(dt) / value(x.decay);
            let by = stage_error(m, value(x.decay));
            &&& finite(t.level)
            &&& t.stage == DECAY ==> near(value(t.level), value(s.level) - fall, by) && value(
                t.level,
            ) > sustain_of(x) && value(t.level) <= value(s.level)
            &&& fall > by && value(s.level) > sustain_of(x) ==> value(t.level) < value(s.level)
            &&& t.stage != DECAY ==> t.stage == SUSTAIN && value(t.level) == sustain_of(x) && value(
                s.level,
            ) - fall <= sustain_of(x) + by
        }),
{
    law_constants_are_their_numbers();
    let e = m.error;
    let sus = sustain_level(fp, x);
    let d = eval32(fp, FloatOp::Max(x.decay, ZERO));
    let dec = value(x.decay);
    let h = value(dt);
    assert(finite(d) && value(d) == dec);
    assert(finite(sus) && value(sus) == sustain_of(x));
    let g = value(sus);
    let rest = eval32(fp, FloatOp::Sub(ONE, sus));
    let y = (1 as real) - g;
    assert(stands_for(m, rest, y));
    assert(value(ZERO) <= value(rest) && value(rest) <= value(ONE));
    lemma_error(e, size(y), 1 as real);
    assert(near(value(rest), y, e * (2 as real)));
    let drop = eval32(fp, FloatOp::Mul(dt, rest));
    let z = h * value(rest);
    assert((0 as real) <= z && z <= 1 as real) by (nonlinear_arith)
        requires
            z == h * value(rest),
            (0 as real) <= h,
            h <= 1 as real,
            (0 as real) <= value(rest),
            value(rest) <= 1 as real,
    ;
    assert(stands_for(m, drop, z));
    assert(value(ZERO) <= value(drop) && value(drop) <= value(ONE));
    lemma_error(e, size(z), 1 as real);
    let ideal = h * y;
    assert(near(z, ideal, e * (2 as real))) by {
        let c = value(rest) - y;
        let b = e * (2 as real);
        assert(z - ideal == h * c && -b <= h * c && h * c <= b) by (nonlinear_arith)
            requires
                z == h * value(rest),
                ideal == h * y,
                c == value(rest) - y,
                -b <= c,
                c <= b,
                (0 as real) <= h,
                h <= 1 as real,
        ;
    }
    assert(near(value(drop), ideal, e * (4 as real)));
    lemma_over(value(drop), ideal, e * (4 as real), dec);
    let fall = eval32(fp, FloatOp::Div(drop, d));
    let w = value(drop) / dec;
    assert((0 as real) <= w && w <= (1 as real) / dec) by (nonlinear_arith)
        requires
            w == value(drop) / dec,
            (0 as real) <= value(drop),
            value(drop) <= 1 as real,
            dec > 0 as real,
    ;
    let inv = (1 as real) / dec;
    assert((2 as real) / dec == (2 as real) * inv && inv > 0 as real) by (nonlinear_arith)
        requires
            inv == (1 as real) / dec,
            dec > 0 as real,
    ;
    assert(stands_for(m, fall, w));
    lemma_error(e, size(w), inv);
    assert(near(value(fall), w, e * ((1 as real) + inv)));
    assert(value(ZERO) <= value(fall));
    assert(e * ((1 as real) + inv) <= (1 as real) + inv) by (nonlinear_arith)
        requires
            (0 as real) <= e,
            e <= 1 as real,
            inv > 0 as real,
    ;
    let level = eval32(fp, FloatOp::Sub(s.level, fall));
    let l = value(s.level) - value(fall);
    assert(size(l) <= m.top);
    assert(stands_for(m, level, l));
    let want = y * h / dec;
    assert(ideal / dec == want) by (nonlinear_arith)
        requires
            ideal == h * y,
            want == y * h / dec,
            dec > 0 as real,
    ;
    let by = stage_error(m, dec);
    assert(e * (4 as real) / dec == (4 as real) * e * inv && by == (8 as real) * e + (8 as real) * e
        * inv && e * ((1 as real) + inv) == e + e * inv) by (nonlinear_arith)
        requires
            inv == (1 as real) / dec,
            dec > 0 as real,
            by == e * ((8 as real) + (8 as real) / dec),
    ;
    let ei = e * inv;
    assert((0 as real) <= ei) by (nonlinear_arith)
        requires
            ei == e * inv,
            (0 as real) <= e,
            inv > 0 as real,
    ;
    assert((4 as real) * e * inv == (4 as real) * ei && (8 as real) * e * inv == (8 as real) * ei)
        by (nonlinear_arith)
        requires
            ei == e * inv,
    ;
    assert(near(value(fall), want, e + (5 as real) * ei));
    // The size of what is rounded last is at most one more than the fall.
    let big = (2 as real) + inv;
    assert(size(l) <= big + e + ei);
    assert(e + ei <= (1 as real) + inv);
    assert(size(l) <= (3 as real) + (2 as real) * inv);
    lemma_error(e, size(l), (3 as real) + (2 as real) * inv);
    assert(e * ((1 as real) + ((3 as real) + (2 as real) * inv)) == (4 as real) * e + (2 as real)
        * ei) by (nonlinear_arith)
        requires
            ei == e * inv,
    ;
    assert(near(value(level), l, (4 as real) * e + (2 as real) * ei));
    assert(near(value(level), value(s.level) - want, by));
    assert(value(level) <= value(s.level));
}

/// A sample of the attack with a time of its own rises by the part of the attack time that the
/// sample takes; or it has reached 1, and the decay is next.
pub proof fn law_attack_rises_evenly<F: Fn(FloatOp) -> u64>(
    fp: F,
    m: Arithmetic,
    s: AdsrState,
    x: AdsrInput,
    dt: u32,
)
    requires
        computes(fp, m),
        numeric(s),
        numbers_in(x),
        finite(dt),
        (0 as real) <= value(dt),
        value(dt) <= 1 as real,
        value(x.attack) > 0 as real,
        (2 as real) / value(x.attack) <= m.top - (4 as real),
    ensures
        ({
            let t = attacked(fp, s, x, dt);
            let rise = value(dt) / value(x.attack);
            let by = stage_error(m, value(x.attack));
            &&& finite(t.level)
            &&& t.stage == ATTACK ==> near(value(t.level), value(s.level) + rise, by) && value(
                t.level,
            ) < 1 as real
            &&& t.stage != ATTACK ==> t.stage == DECAY && value(t.level) == 1 as real && value(
                s.level,
            ) + rise >= (1 as real) - by
        }),
{
    law_constants_are_their_numbers();
    let e = m.error;
    let a = eval32(fp, FloatOp::Max(x.attack, ZERO));
    let att = value(x.attack);
    let h = value(dt);
    assert(finite(a) && value(a) == att);
    let rise = eval32(fp, FloatOp::Div(dt, a));
    let w = h / att;
    let inv = (1 as real) / att;
    assert((0 as real) <= w && w <= inv && (2 as real) / att == (2 as real) * inv && inv
        > 0 as real) by (nonlinear_arith)
        requires
            w == h / att,
            inv == (1 as real) / att,
            (0 as real) <= h,
            h <= 1 as real,
            att > 0 as real,
    ;
    assert(stands_for(m, rise, w));
    lemma_error(e, size(w), inv);
    let ei = e * inv;
    assert(e * ((1 as real) + inv) == e + ei && (0 as real) <= ei && ei <= inv) by (nonlinear_arith)
        requires
            ei == e * inv,
            (0 as real) <= e,
            e <= 1 as real,
            inv > 0 as real,
    ;
    assert(near(value(rise), w, e + ei));
    let level = eval32(fp, FloatOp::Add(s.level, rise));
    let l = value(s.level) + value(rise);
    assert(size(l) <= (2 as real) + (2 as real) * inv);
    assert(stands_for(m, level, l));
    lemma_error(e, size(l), (2 as real) + (2 as real) * inv);
    assert(e * ((1 as real) + ((2 as real) + (2 as real) * inv)) == (3 as real) * e + (2 as real)
        * ei) by (nonlinear_arith)
        requires
            ei == e * inv,
    ;
    let by = stage_error(m, att);
    assert(by == (8 as real) * e + (8 as real) * ei) by (nonlinear_arith)
        requires
            by == e * ((8 as real) + (8 as real) / att),
            inv == (1 as real) / att,
            ei == e * inv,
            att > 0 as real,
    ;
    assert(near(value(level), value(s.level) + w, by));
}

/// A closing gate starts a release that would take the release time: per sample, the level that is
/// held times the part of the release time that a sample takes. With no release time the whole
/// level is taken at once.
pub proof fn law_release_is_measured_at_the_edge<F: Fn(FloatOp) -> u64>(
    fp: F,
    m: Arithmetic,
    s: AdsrState,
    x: AdsrInput,
    dt: u32,
)
    requires
        computes(fp, m),
        numeric(s),
        numbers_in(x),
        finite(dt),
        (0 as real) <= value(dt),
        value(dt) <= 1 as real,
        s.stage != IDLE,
        value(s.prev_gate) > 0 as real,
        value(x.gate) <= 0 as real,
        value(x.release) > 0 as real ==> (2 as real) / value(x.release) <= m.top,
    ensures
        ({
            let t = after_edge(fp, s, x, dt);
            &&& t.stage == RELEASE
            &&& t.level == s.level
            &&& t.prev_gate == x.gate
            &&& finite(t.rel_rate)
            &&& (0 as real) <= value(t.rel_rate)
            &&& value(x.release) <= 0 as real ==> value(t.rel_rate) == value(s.level)
            &&& value(x.release) > 0 as real ==> near(
                value(t.rel_rate),
                value(s.level) * value(dt) / value(x.release),
                stage_error(m, value(x.release)),
            )
        }),
{
    law_constants_are_their_numbers();
    let e = m.error;
    let rel = eval32(fp, FloatOp::Max(x.release, ZERO));
    let r = value(x.release);
    assert(finite(rel));
    assert(is_so(fp, FloatOp::Lt(ZERO, s.prev_gate)));
    assert(!is_so(fp, FloatOp::Le(s.prev_gate, ZERO)));
    assert(is_so(fp, FloatOp::Le(x.gate, ZERO)));
    if r > 0 as real {
        assert(value(rel) == r);
        let scaled = eval32(fp, FloatOp::Mul(s.level, dt));
        let z = value(s.level) * value(dt);
        assert((0 as real) <= z && z <= 1 as real) by (nonlinear_arith)
            requires
                z == value(s.level) * value(dt),
                (0 as real) <= value(s.level),
                value(s.level) <= 1 as real,
                (0 as real) <= value(dt),
                value(dt) <= 1 as real,
        ;
        assert(stands_for(m, scaled, z));
        assert(value(ZERO) <= value(scaled) && value(scaled) <= value(ONE));
        lemma_error(e, size(z), 1 as real);
        assert(near(value(scaled), z, e * (2 as real)));
        lemma_over(value(scaled), z, e * (2 as real), r);
        let rate = eval32(fp, FloatOp::Div(scaled, rel));
        let w = value(scaled) / r;
        let inv = (1 as real) / r;
        assert((0 as real) <= w && w <= inv && (2 as real) / r == (2 as real) * inv && inv
            > 0 as real) by (nonlinear_arith)
            requires
                w == value(scaled) / r,
                inv == (1 as real) / r,
                (0 as real) <= value(scaled),
                value(scaled) <= 1 as real,
                r > 0 as real,
        ;
        assert(stands_for(m, rate, w));
        assert(value(ZERO) <= value(rate));
        lemma_error(e, size(w), inv);
        let by = stage_error(m, r);
        let ei = e * inv;
        assert(e * ((1 as real) + inv) == e + ei && by == (8 as real) * e + (8 as real) * ei && e * (
        2 as real) / r == (2 as real) * ei && (0 as real) <= ei) by (nonlinear_arith)
            requires
                ei == e * inv,
                inv == (1 as real) / r,
                by == e * ((8 as real) + (8 as real) / r),
                r > 0 as real,
                (0 as real) <= e,
        ;
        assert(after_edge(fp, s, x, dt).rel_rate == rate);
    }
}

/// A sample of the release falls by the rate that was measured at its start; or it has reached
/// silence.
pub proof fn law_release_falls_evenly<F: Fn(FloatOp) -> u64>(fp: F, m: Arithmetic, s: AdsrState)
    requires
        computes(fp, m),
        numeric(s),
        s.stage == RELEASE,
        (0 as real) <= value(s.rel_rate),
        value(s.rel_rate) <= m.top - (2 as real),
    ensures
        ({
            let t = released(fp, s);
            let by = m.error * ((2 as real) + value(s.rel_rate));
            &&& finite(t.level)
            &&& t.stage == RELEASE ==> near(
                value(t.level),
                value(s.level) - value(s.rel_rate),
                by,
            ) && value(t.level) > 0 as real
            &&& t.stage != RELEASE ==> t.stage == IDLE && value(t.level) == 0 as real && value(
                s.level,
            ) - value(s.rel_rate) <= by
        }),
{
    law_constants_are_their_numbers();
    let level = eval32(fp, FloatOp::Sub(s.level, s.rel_rate));
    let l = value(s.level) - value(s.rel_rate);
    assert(stands_for(m, level, l));
    lemma_error(m.error, size(l), (1 as real) + value(s.rel_rate));
}

/// Over `n` samples of a constant decay with an open gate: the level is where it started, less the
/// even fall so far, until that has reached the sustain level; there it stays. Each sample falls by
/// its part of the decay time, of the way from 1 to the sustain level.
pub proof fn law_decay_takes_its_time<F: Fn(FloatOp) -> u64>(
    fp: F,
    m: Arithmetic,
    s: AdsrState,
    inputs: Seq<Seq<u32>>,
    x: AdsrInput,
    dt: u32,
    n: nat,
)
    requires
        computes(fp, m),
        numeric(s),
        s.stage == DECAY,
        value(s.level) > sustain_of(x),
        numbers_in(x),
        finite(dt),
        (0 as real) <= value(dt),
        value(dt) <= 1 as real,
        value(x.decay) > 0 as real,
        (2 as real) / value(x.decay) <= m.top - (4 as real),
        value(s.prev_gate) > 0 as real,
        value(x.gate) > 0 as real,
        forall|i: int| 0 <= i < n ==> #[trigger] input_at(inputs, i) == x,
    ensures
        ({
            let t = state_after(fp, s, inputs, dt, n as int);
            let k = n as int as real;
            let ideal = value(s.level) - k * (((1 as real) - sustain_of(x)) * value(dt) / value(
                x.decay,
            ));
            let by = k * stage_error(m, value(x.decay));
            &&& numeric(t)
            &&& value(t.prev_gate) > 0 as real
            &&& t.stage == DECAY || t.stage == SUSTAIN
            &&& t.stage == DECAY ==> near(value(t.level), ideal, by) && value(t.level)
                > sustain_of(x)
            &&& t.stage == SUSTAIN ==> value(t.level) == sustain_of(x) && ideal <= sustain_of(x)
                + by
        }),
    decreases n,
{
    let fall = ((1 as real) - sustain_of(x)) * value(dt) / value(x.decay);
    let e = stage_error(m, value(x.decay));
    let k = n as int as real;
    assert((0 as real) <= fall && (0 as real) <= e) by {
        lemma_rates(m.error, (1 as real) - sustain_of(x), value(dt), value(x.decay));
    }
    if n > 0 {
        let less = (n - 1) as nat;
        law_decay_takes_its_time(fp, m, s, inputs, x, dt, less);
        let p = state_after(fp, s, inputs, dt, n - 1);
        law_constants_are_their_numbers();
        assert(input_at(inputs, n - 1) == x);
        assert(!is_so(fp, FloatOp::Le(p.prev_gate, ZERO)));
        assert(!is_so(fp, FloatOp::Le(x.gate, ZERO)));
        let q = after_edge(fp, p, x, dt);
        assert(q == (AdsrState { prev_gate: x.gate, ..p }));
        law_decay_falls_evenly(fp, m, q, x, dt);
        let j = less as int as real;
        assert(k == j + (1 as real));
        assert(k * fall == j * fall + fall && k * e == j * e + e) by (nonlinear_arith)
            requires
                k == j + (1 as real),
        ;
        let sus = sustain_level(fp, x);
        assert(finite(sus) && value(sus) == sustain_of(x));
    } else {
        assert(k * fall == 0 as real && k * e == 0 as real) by (nonlinear_arith)
            requires
                k == 0 as real,
        ;
    }
}

/// A decay from 1 takes the decay time, whatever the sustain level is: once so many samples have passed,
/// the sustain level has been reached, but for rounding, and it has not been reached by more than
/// rounding before.
pub proof fn law_decay_ends_with_its_time<F: Fn(FloatOp) -> u64>(
    fp: F,
    m: Arithmetic,
    s: AdsrState,
    inputs: Seq<Seq<u32>>,
    x: AdsrInput,
    dt: u32,
    n: nat,
)
    requires
        computes(fp, m),
        numeric(s),
        s.stage == DECAY,
        value(s.level) == 1 as real,
        sustain_of(x) < 1 as real,
        numbers_in(x),
        finite(dt),
        (0 as real) <= value(dt),
        value(dt) <= 1 as real,
        value(x.decay) > 0 as real,
        (2 as real) / value(x.decay) <= m.top - (4 as real),
        value(s.prev_gate) > 0 as real,
        value(x.gate) > 0 as real,
        forall|i: int| 0 <= i < n ==> #[trigger] input_at(inputs, i) == x,
    ensures
        ({
            let t = state_after(fp, s, inputs, dt, n as int);
            let k = n as int as real;
            let by = k * stage_error(m, value(x.decay));
            let left = (1 as real) - k * value(dt) / value(x.decay);
            &&& t.stage == DECAY || t.stage == SUSTAIN
            &&& k * value(dt) >= value(x.decay) ==> sustain_of(x) <= value(t.level) && value(t.level)
                <= sustain_of(x) + by
            &&& t.stage == DECAY ==> near(
                value(t.level),
                sustain_of(x) + ((1 as real) - sustain_of(x)) * left,
                by,
            )
            &&& t.stage == SUSTAIN ==> ((1 as real) - sustain_of(x)) * left <= by
        }),
{
    law_decay_takes_its_time(fp, m, s, inputs, x, dt, n);
    let k = n as int as real;
    let y = (1 as real) - sustain_of(x);
    let h = value(dt);
    let d = value(x.decay);
    let left = (1 as real) - k * h / d;
    let e = stage_error(m, d);
    lemma_rates(m.error, y, h, d);
    let ideal = (1 as real) - k * (y * h / d);
    assert(ideal == sustain_of(x) + y * left) by (nonlinear_arith)
        requires
            ideal == (1 as real) - k * (y * h / d),
            y == (1 as real) - sustain_of(x),
            left == (1 as real) - k * h / d,
            d > 0 as real,
    ;
    assert((0 as real) <= k * e) by (nonlinear_arith)
        requires
            (0 as real) <= k,
            (0 as real) <= e,
    ;
    if k * h >= d {
        assert(y * left <= 0 as real) by (nonlinear_arith)
            requires
                left == (1 as real) - k * h / d,
                k * h >= d,
                d > 0 as real,
                y > 0 as real,
        ;
    }
}

proof fn lemma_rates(e: real, y: real, h: real, d: real)
    requires
        (0 as real) <= e,
        (0 as real) <= y,
        (0 as real) <= h,
        d > 0 as real,
    ensures
        (0 as real) <= y * h / d,
        (0 as real) <= e * ((8 as real) + (8 as real) / d),
{
    assert((0 as real) <= y * h / d && (0 as real) <= e * ((8 as real) + (8 as real) / d))
        by (nonlinear_arith)
        requires
            (0 as real) <= e,
            (0 as real) <= y,
            (0 as real) <= h,
            d > 0 as real,
    {
        assert((0 as real) <= y * h);
        assert((0 as real) <= (8 as real) / d);
    }
}

/// Over `n` samples of a constant attack with an open gate: the level has risen by the part of the
/// attack time that has passed, until it has reached 1.
pub proof fn law_attack_takes_its_time<F: Fn(FloatOp) -> u64>(
    fp: F,
    m: Arithmetic,
    s: AdsrState,
    inputs: Seq<Seq<u32>>,
    x: AdsrInput,
    dt: u32,
    n: nat,
)
    requires
        computes(fp, m),
        numeric(s),
        s.stage == ATTACK,
        value(s.level) < 1 as real,
        numbers_in(x),
        finite(dt),
        (0 as real) <= value(dt),
        value(dt) <= 1 as real,
        value(x.attack) > 0 as real,
        (2 as real) / value(x.attack) <= m.top - (4 as real),
        value(s.prev_gate) > 0 as real,
        value(x.gate) > 0 as real,
        forall|i: int| 0 <= i < n ==> #[trigger] input_at(inputs, i) == x,
    ensures
        ({
            let t = state_after(fp, s, inputs, dt, n as int);
            let k = n as int as real;
            let ideal = value(s.level) + k * (value(dt) / value(x.attack));
            let by = k * stage_error(m, value(x.attack));
            &&& value(t.prev_gate) > 0 as real
            &&& finite(t.prev_gate)
            &&& t.stage == ATTACK ==> numeric(t) && near(value(t.level), ideal, by) && value(
                t.level,
            ) < 1 as real
            &&& t.stage != ATTACK ==> (t.stage == DECAY || t.stage == SUSTAIN) && ideal >= (
            1 as real) - by
        }),
    decreases n,
{
    let rise = value(dt) / value(x.attack);
    let e = stage_error(m, value(x.attack));
    let k = n as int as real;
    assert((0 as real) <= rise && (0 as real) <= e) by {
        lemma_rates(m.error, 1 as real, value(dt), value(x.attack));
        assert((1 as real) * value(dt) == value(dt));
    }
    if n > 0 {
        let less = (n - 1) as nat;
        law_attack_takes_its_time(fp, m, s, inputs, x, dt, less);
        let p = state_after(fp, s, inputs, dt, n - 1);
        law_constants_are_their_numbers();
        assert(input_at(inputs, n - 1) == x);
        assert(!is_so(fp, FloatOp::Le(p.prev_gate, ZERO)));
        assert(!is_so(fp, FloatOp::Le(x.gate, ZERO)));
        let q = after_edge(fp, p, x, dt);
        assert(q == (AdsrState { prev_gate: x.gate, ..p }));
        if p.stage == ATTACK {
            law_attack_rises_evenly(fp, m, q, x, dt);
            lemma_attack_stays_up(fp, m, q, x, dt);
        }
        let j = less as int as real;
        assert(k == j + (1 as real));
        assert(k * rise == j * rise + rise && k * e == j * e + e) by (nonlinear_arith)
            requires
                k == j + (1 as real),
        ;
    } else {
        assert(k * rise == 0 as real && k * e == 0 as real) by (nonlinear_arith)
            requires
                k == 0 as real,
        ;
    }
}

/// A rising level does not fall below zero.
proof fn lemma_attack_stays_up<F: Fn(FloatOp) -> u64>(
    fp: F,
    m: Arithmetic,
    s: AdsrState,
    x: AdsrInput,
    dt: u32,
)
    requires
        computes(fp, m),
        numeric(s),
        numbers_in(x),
        finite(dt),
        (0 as real) <= value(dt),
        value(dt) <= 1 as real,
        value(x.attack) > 0 as real,
        (2 as real) / value(x.attack) <= m.top - (4 as real),
    ensures
        (0 as real) <= value(attacked(fp, s, x, dt).level),
{
    law_constants_are_their_numbers();
    let a = eval32(fp, FloatOp::Max(x.attack, ZERO));
    let att = value(x.attack);
    let h = value(dt);
    let rise = eval32(fp, FloatOp::Div(dt, a));
    let w = h / att;
    let inv = (1 as real) / att;
    assert((0 as real) <= w && w <= inv && (2 as real) / att == (2 as real) * inv && inv
        > 0 as real) by (nonlinear_arith)
        requires
            w == h / att,
            inv == (1 as real) / att,
            (0 as real) <= h,
            h <= 1 as real,
            att > 0 as real,
    ;
    assert(stands_for(m, rise, w));
    lemma_error(m.error, size(w), inv);
    assert(m.error * ((1 as real) + inv) <= (1 as real) + inv) by (nonlinear_arith)
        requires
            (0 as real) <= m.error,
            m.error <= 1 as real,
            inv > 0 as real,
    ;
    assert(value(ZERO) <= value(rise));
    let level = eval32(fp, FloatOp::Add(s.level, rise));
    let l = value(s.level) + value(rise);
    assert(stands_for(m, level, l));
    assert(value(ZERO) <= value(level));
}

/// Over `n` samples of a release with a closed gate: the level has fallen evenly by the measured
/// rate, until it has reached silence; there it stays.
pub proof fn law_release_takes_its_time<F: Fn(FloatOp) -> u64>(
    fp: F,
    m: Arithmetic,
    s: AdsrState,
    inputs: Seq<Seq<u32>>,
    dt: u32,
    n: nat,
)
    requires
        computes(fp, m),
        numeric(s),
        s.stage == RELEASE,
        value(s.level) > 0 as real,
        (0 as real) <= value(s.rel_rate),
        value(s.rel_rate) <= m.top - (2 as real),
        value(s.prev_gate) <= 0 as real,
        forall|i: int|
            0 <= i < n ==> finite((#[trigger] input_at(inputs, i)).gate) && value(
                input_at(inputs, i).gate,
            ) <= 0 as real,
    ensures
        ({
            let t = state_after(fp, s, inputs, dt, n as int);
            let k = n as int as real;
            let ideal = value(s.level) - k * value(s.rel_rate);
            let by = k * (m.error * ((2 as real) + value(s.rel_rate)));
            &&& t.rel_rate == s.rel_rate
            &&& numeric(t)
            &&& value(t.prev_gate) <= 0 as real
            &&& t.stage == RELEASE || t.stage == IDLE
            &&& t.stage == RELEASE ==> near(value(t.level), ideal, by) && value(t.level)
                > 0 as real
            &&& t.stage == IDLE ==> value(t.level) == 0 as real && ideal <= by
        }),
    decreases n,
{
    let rate = value(s.rel_rate);
    let e = m.error * ((2 as real) + rate);
    let k = n as int as real;
    lemma_error(m.error, (1 as real) + rate, (1 as real) + rate);
    if n > 0 {
        let less = (n - 1) as nat;
        law_release_takes_its_time(fp, m, s, inputs, dt, less);
        let p = state_after(fp, s, inputs, dt, n - 1);
        let x = input_at(inputs, n - 1);
        law_constants_are_their_numbers();
        assert(finite(x.gate));
        assert(!is_so(fp, FloatOp::Lt(ZERO, p.prev_gate)));
        assert(!is_so(fp, FloatOp::Lt(ZERO, x.gate)));
        let q = after_edge(fp, p, x, dt);
        assert(q == (AdsrState { prev_gate: x.gate, ..p }));
        if p.stage == RELEASE {
            law_release_falls_evenly(fp, m, q);
            let l = eval32(fp, FloatOp::Sub(q.level, q.rel_rate));
            assert(stands_for(m, l, value(q.level) - rate));
            assert(value(l) <= value(ONE));
        }
        let j = less as int as real;
        assert(k == j + (1 as real));
        assert(k * rate == j * rate + rate && k * e == j * e + e) by (nonlinear_arith)
            requires
                k == j + (1 as real),
        ;
    } else {
        assert(k * rate == 0 as real && k * e == 0 as real) by (nonlinear_arith)
            requires
                k == 0 as real,
        ;
    }
}

/// On a float unit that computes, a sample takes one over the sample rate.
pub proof fn law_sample_time_is_one_over_the_rate<F: Fn(FloatOp) -> u64>(
    fp: F,
    m: Arithmetic,
    sample_rate: u32,
)
    requires
        computes(fp, m),
        finite(sample_rate),
        value(sample_rate) >= 1 as real,
    ensures
        finite(sample_time(fp, sample_rate)),
        (0 as real) <= value(sample_time(fp, sample_rate)),
        value(sample_time(fp, sample_rate)) <= 1 as real,
        near(
            value(sample_time(fp, sample_rate)),
            (1 as real) / value(sample_rate),
            (2 as real) * m.error,
        ),
{
    law_constants_are_their_numbers();
    let r = value(sample_rate);
    let x = (1 as real) / r;
    assert((0 as real) <= x && x <= 1 as real) by (nonlinear_arith)
        requires
            x == (1 as real) / r,
            r >= 1 as real,
    ;
    assert(stands_for(m, sample_time(fp, sample_rate), x));
    assert(value(ZERO) <= value(sample_time(fp, sample_rate)));
    assert(value(sample_time(fp, sample_rate)) <= value(ONE));
    lemma_error(m.error, size(x), 1 as real);
}

/// An opening gate starts the attack, from the level that is held and whatever the stage was; a
/// closing one starts the release unless the envelope is idle; a gate that stays as it is, open or
/// closed, keeps the stage. Its state is remembered each time.
pub proof fn law_gate_edges_decide_the_stage<F: Fn(FloatOp) -> u64>(
    fp: F,
    s: AdsrState,
    x: AdsrInput,
    dt: u32,
)
    requires
        compares(fp),
        finite(s.prev_gate),
        finite(x.gate),
    ensures
        ({
            let t = after_edge(fp, s, x, dt);
            let was_open = value(s.prev_gate) > 0 as real;
            let is_open = value(x.gate) > 0 as real;
            &&& t.prev_gate == x.gate
            &&& t.level == s.level
            &&& !was_open && is_open ==> t.stage == ATTACK
            &&& was_open && !is_open && s.stage != IDLE ==> t.stage == RELEASE
            &&& was_open && !is_open && s.stage == IDLE ==> t.stage == IDLE
            &&& was_open == is_open ==> t.stage == s.stage && t.rel_rate == s.rel_rate
        }),
{
    law_constants_are_their_numbers();
    assert(is_so(fp, FloatOp::Le(s.prev_gate, ZERO)) == (value(s.prev_gate) <= 0 as real));
    assert(is_so(fp, FloatOp::Lt(ZERO, s.prev_gate)) == (value(s.prev_gate) > 0 as real));
    assert(is_so(fp, FloatOp::Le(x.gate, ZERO)) == (value(x.gate) <= 0 as real));
    assert(is_so(fp, FloatOp::Lt(ZERO, x.gate)) == (value(x.gate) > 0 as real));
}

/// While a gate is held, a sustained envelope follows the sustain input, and an idle one stays
/// silent.
pub proof fn law_sustain_follows_its_input<F: Fn(FloatOp) -> u64>(
    fp: F,
    s: AdsrState,
    x: AdsrInput,
    dt: u32,
)
    requires
        compares(fp),
        finite(s.prev_gate),
        numbers_in(x),
        (value(s.prev_gate) > 0 as real) == (value(x.gate) > 0 as real),
    ensures
        s.stage == SUSTAIN ==> stepped(fp, s, x, dt).stage == SUSTAIN && value(
            stepped(fp, s, x, dt).level,
        ) == sustain_of(x),
        s.stage == IDLE ==> stepped(fp, s, x, dt).stage == IDLE && value(
            stepped(fp, s, x, dt).level,
        ) == 0 as real,
{
    law_constants_are_their_numbers();
    law_gate_edges_decide_the_stage(fp, s, x, dt);
}

/// An envelope goes on from block to block: two blocks in a row leave it, and sound, like one block
/// over both stretches of input.
pub proof fn law_envelope_is_retained<F: Fn(FloatOp) -> u64>(
    fp: F,
    s: AdsrState,
    first: Seq<Seq<u32>>,
    second: Seq<Seq<u32>>,
    both: Seq<Seq<u32>>,
    dt: u32,
    n: nat,
    m: nat,
)
    requires
        forall|i: int| 0 <= i < n ==> #[trigger] input_at(both, i) == input_at(first, i),
        forall|i: int| 0 <= i < m ==> #[trigger] input_at(second, i) == input_at(both, n + i),
    ensures
        state_after(fp, s, both, dt, n as int) == state_after(fp, s, first, dt, n as int),
        state_after(fp, s, both, dt, (n + m) as int) == state_after(
            fp,
            state_after(fp, s, first, dt, n as int),
            second,
            dt,
            m as int,
        ),
        envelope(fp, s, both, dt, (n + m) as int) == envelope(fp, s, first, dt, n as int) + envelope(
            fp,
            state_after(fp, s, first, dt, n as int),
            second,
            dt,
            m as int,
        ),
{
    let mid = state_after(fp, s, first, dt, n as int);
    lemma_same_inputs(fp, s, first, both, dt, n);
    lemma_goes_on(fp, s, second, both, dt, n, m);
    let whole = envelope(fp, s, both, dt, (n + m) as int);
    let parts = envelope(fp, s, first, dt, n as int) + envelope(fp, mid, second, dt, m as int);
    assert forall|i: int| 0 <= i < n + m implies whole[i] == parts[i] by {
        if i < n {
            lemma_same_inputs(fp, s, first, both, dt, (i + 1) as nat);
        } else {
            lemma_goes_on(fp, s, second, both, dt, n, (i + 1 - n) as nat);
        }
    }
    assert(whole =~= parts);
}

proof fn lemma_same_inputs<F: Fn(FloatOp) -> u64>(
    fp: F,
    s: AdsrState,
    a: Seq<Seq<u32>>,
    b: Seq<Seq<u32>>,
    dt: u32,
    n: nat,
)
    requires
        forall|i: int| 0 <= i < n ==> #[trigger] input_at(b, i) == input_at(a, i),
    ensures
        state_after(fp, s, b, dt, n as int) == state_after(fp, s, a, dt, n as int),
    decreases n,
{
    if n > 0 {
        lemma_same_inputs(fp, s, a, b, dt, (n - 1) as nat);
        assert(input_at(b, n - 1) == input_at(a, n - 1));
    }
}

proof fn lemma_goes_on<F: Fn(FloatOp) -> u64>(
    fp: F,
    s: AdsrState,
    second: Seq<Seq<u32>>,
    both: Seq<Seq<u32>>,
    dt: u32,
    n: nat,
    m: nat,
)
    requires
        forall|i: int| 0 <= i < m ==> #[trigger] input_at(second, i) == input_at(both, n + i),
    ensures
        state_after(fp, s, both, dt, (n + m) as int) == state_after(
            fp,
            state_after(fp, s, both, dt, n as int),
            second,
            dt,
            m as int,
        ),
    decreases m,
{
    if m > 0 {
        lemma_goes_on(fp, s, second, both, dt, n, (m - 1) as nat);
        assert(input_at(second, m - 1) == input_at(both, n + (m - 1)));
    }
}

} // verus!
