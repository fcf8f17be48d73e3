//! Compiles a [`Patch`] into a processing plan and runs it.
//!
//! Two backends share one front end:
//!
//! - **Mono**: no voice source; every node is a shared record.
//! - **Poly**: exactly one voice source (a [`PolyphonicModule`]). Nodes downstream of the source
//!   live in per-voice slots, the rest in shared records. Each block the source emits per-voice
//!   outputs, the walk runs the active slots, and the sink sums the active slots.

use vstd::prelude::*;
use crate::blocks::{block_frames, interleaved, law_frames_are_interleaved, lemma_interleaved, lemma_none_written, lemma_written_to, put_channel, silence, start_time, written_to};
use crate::bytes::{word_at, words};
use crate::compile::{all_but, all_chosen, all_feed, all_modules, are_records, fed_right, feeds, is_record, lemma_fed_right, mono_records};
use crate::compile_voices::{PolyRecords, SinkSrc, compiles_to, division, is_voice_record, one_source, poly_records, poly_shape, voice_feeds};
use crate::float::{FloatOp, ZERO, apply, apply32, eval32, is_float_unit};
use crate::model::{Node, Patch, settings};
use crate::module::{ModuleType, Registry, SourceType};
use crate::plan::{Plan, RecordSpec, countable, laid_out, lemma_mono_schedule, lemma_params_at, lemma_rec_off, lemma_spec_end, mono_len, mono_recs, mono_start, mono_term, param_lens, params_start, plan_fits, plannable, port_off, rec_off, runnable, tick_of, zero_off, zeroed};
use crate::plan_laws::{law_records_run_their_modules, made_of};
use crate::processing::{Tail, TickCtx};
use crate::resolve::{Resolved, consistent_nodes, net_of, patch_fault, patch_hops, registry_ready, resolve, resolves_to};
use crate::slots::{SlotManager, SlotState, SlotsView, in_order};
use crate::voice_layout::{VoiceSource, VoicedShape};
use crate::voice_source::{PolyphonicModule, SourceCtx, SourceView, consistent, same_setting, state_views, walked};
use crate::voiced_plan::{VoicedPlan, all_runnable, scheduled, voiced_plan_fits, voices_laid_out};
use crate::walk::{after_walk, holds};
use crate::wiring::hop_edges;

pub use crate::resolve::EngineError;

verus! {

/// Number of voice slots of a patch with a voice source.
pub const DEFAULT_MAX_VOICES: usize = 16;

struct Mono<M: ModuleType> {
    plan: Plan,
    fns: Vec<M>,
    sink: Vec<Option<(usize, usize)>>,
}

struct Poly<M: ModuleType, P: PolyphonicModule> {
    ctx: SourceCtx,
    fns: Vec<M>,
    source: P,
    sink: Vec<Option<SinkSrc>>,
    slot_alive: Vec<bool>,
}

enum Backend<M: ModuleType, P: PolyphonicModule> {
    Mono(Mono<M>),
    Poly(Poly<M, P>),
}

/// A compiled, runnable patch built on the processing plan.
pub struct PlanEngine<M: ModuleType, S: SourceType, F: Fn(FloatOp) -> u64> {
    backend: Backend<M, S::Module>,
    channels: usize,
    sample_rate: u32,
    capacity: usize,
    elapsed_frames: u64,
    fp: F,
}

/// The contents of a backend.
#[verifier::ext_equal]
pub enum BackView<M: ModuleType, P: PolyphonicModule> {
    Mono { bytes: Seq<u8>, specs: Seq<RecordSpec>, fns: Seq<M>, fed: Seq<Option<(usize, usize)>> },
    Poly { ctx: SourceView, fns: Seq<M>, source: P, sink: Seq<Option<SinkSrc>> },
}

/// The contents of a [`PlanEngine`].
#[verifier::ext_equal]
pub struct EngineView<M: ModuleType, P: PolyphonicModule, F: Fn(FloatOp) -> u64> {
    pub back: BackView<M, P>,
    pub channels: usize,
    pub sample_rate: u32,
    /// The largest number of frames of a block.
    pub capacity: usize,
    /// Frames rendered so far.
    pub elapsed: u64,
    pub fp: F,
}

/// What the channels of a patch without voices carry: the producer's output, or silence.
pub open spec fn mono_channels(
    bytes: Seq<u8>,
    capacity: int,
    specs: Seq<RecordSpec>,
    sink: Seq<Option<(usize, usize)>>,
    frames: int,
) -> Seq<Seq<u32>> {
    Seq::new(
        sink.len(),
        |c: int|
            match sink[c] {
                Some((rec, port)) => mono_recs(capacity, specs)[rec as int].output(
                    bytes,
                    port as int,
                    capacity,
                    frames,
                ),
                None => silence(frames),
            },
    )
}

/// The sum of an output over the first `n` slots that hold a voice, from 0 on, in slot order.
pub open spec fn voice_sum<F: Fn(FloatOp) -> u64>(
    fp: F,
    ctx: SourceView,
    rec: int,
    port: int,
    n: int,
) -> Seq<u32>
    decreases n,
{
    if n <= 0 {
        silence(ctx.frames as int)
    } else {
        let sum = voice_sum(fp, ctx, rec, port, n - 1);
        if ctx.states[n - 1] == SlotState::Free {
            sum
        } else {
            let out = ctx.shape.voice_rec(rec, n - 1).output(
                ctx.bytes,
                port,
                ctx.shape.block_size,
                ctx.frames as int,
            );
            Seq::new(ctx.frames as nat, |i: int| eval32(fp, FloatOp::Add(sum[i], out[i])))
        }
    }
}

/// What the channels of a patch with voices carry: a shared output, the sum of an output over the
/// voices, or silence.
pub open spec fn poly_channels<F: Fn(FloatOp) -> u64>(
    fp: F,
    ctx: SourceView,
    sink: Seq<Option<SinkSrc>>,
) -> Seq<Seq<u32>> {
    Seq::new(
        sink.len(),
        |c: int|
            match sink[c] {
                Some(SinkSrc::Shared(rec, port)) => ctx.shape.shared_rec(rec as int).output(
                    ctx.bytes,
                    port as int,
                    ctx.shape.block_size,
                    ctx.frames as int,
                ),
                Some(SinkSrc::Voice(rec, port)) => voice_sum(
                    fp,
                    ctx,
                    rec as int,
                    port as int,
                    ctx.shape.max_voices,
                ),
                None => silence(ctx.frames as int),
            },
    )
}

/// Every channel is fed by an output that is there, or by nothing.
pub open spec fn fed_from(specs: Seq<RecordSpec>, sink: Seq<Option<(usize, usize)>>) -> bool {
    forall|c: int|
        0 <= c < sink.len() ==> match #[trigger] sink[c] {
            Some((rec, port)) => rec < specs.len() && port < specs[rec as int].num_outputs,
            None => true,
        }
}

/// Every channel is fed by an output that is there, or by nothing.
pub open spec fn voice_fed_from(shape: VoicedShape, sink: Seq<Option<SinkSrc>>) -> bool {
    forall|c: int|
        0 <= c < sink.len() ==> match #[trigger] sink[c] {
            Some(SinkSrc::Shared(rec, port)) => rec < shape.shared.len() && port
                < shape.shared[rec as int].num_outputs,
            Some(SinkSrc::Voice(rec, port)) => rec < shape.voice.len() && port
                < shape.voice[rec as int].num_outputs,
            None => true,
        }
}

impl<M: ModuleType> Mono<M> {
    spec fn wf(&self, capacity: usize, channels: usize) -> bool {
        &&& self.plan.wf()
        &&& self.plan.capacity() == capacity
        &&& forall|i: int|
            0 <= i < self.plan.specs().len() ==> runnable(
                self.fns@,
                #[trigger] self.plan.specs()[i],
            )
        &&& self.sink@.len() == channels
        &&& fed_from(self.plan.specs(), self.sink@)
    }

    /// Writes the outputs of the walk into the device buffer.
    fn mix(&self, device: &mut Vec<u32>, frames: usize, capacity: usize, channels: usize)
        requires
            self.wf(capacity, channels),
            frames <= capacity,
            frames * channels <= old(device)@.len(),
        ensures
            final(device)@ == interleaved(
                old(device)@,
                mono_channels(
                    self.plan.bytes(),
                    capacity as int,
                    self.plan.specs(),
                    self.sink@,
                    frames as int,
                ),
                frames as int,
            ),
    {
        let ghost before = device@;
        let ghost chans = mono_channels(
            self.plan.bytes(),
            capacity as int,
            self.plan.specs(),
            self.sink@,
            frames as int,
        );
        proof {
            lemma_none_written(before, chans, frames as int);
        }
        let mut c: usize = 0;
        while c < channels
            invariant
                c <= channels,
                self.wf(capacity, channels),
                frames <= capacity,
                channels == chans.len(),
                frames * channels <= before.len(),
                chans == mono_channels(
                    self.plan.bytes(),
                    capacity as int,
                    self.plan.specs(),
                    self.sink@,
                    frames as int,
                ),
                device@.len() == before.len(),
                written_to(before, device@, chans, frames as int, c as int),
            decreases channels - c,
        {
            let ghost mid = device@;
            assert(fed_from(self.plan.specs(), self.sink@));
            let samples: Vec<u32> = match self.sink[c] {
                Some((rec, port)) => {
                    assert(self.sink@[c as int] == Some((rec, port)));
                    let off: u32 = self.plan.output_offset(rec, port);
                    self.plan.buffer_at(off, frames)
                },
                None => vec![ZERO;frames],
            };
            assert(samples@ =~= chans[c as int]);
            put_channel(device, &samples, channels, c);
            proof {
                lemma_written_to(before, mid, device@, chans, frames as int, c as int);
            }
            c = c + 1;
        }
        proof {
            lemma_interleaved(before, device@, chans, frames as int);
        }
    }
}

impl<M: ModuleType, P: PolyphonicModule> Poly<M, P> {
    spec fn wf(&self, capacity: usize, channels: usize) -> bool {
        &&& self.ctx.wf()
        &&& self.ctx@.shape.block_size == capacity
        &&& all_runnable(self.fns@, self.ctx@.shape)
        &&& self.source.suits(self.ctx@.shape.max_voices, self.ctx@.shape.num_source_outputs)
        &&& self.sink@.len() == channels
        &&& voice_fed_from(self.ctx@.shape, self.sink@)
        &&& self.slot_alive@.len() == self.ctx@.shape.max_voices
    }

    /// Sums an output over the slots that hold a voice.
    fn sum_voices<F: Fn(FloatOp) -> u64>(&self, fp: &F, rec: usize, port: usize) -> (sum: Vec<u32>)
        requires
            is_float_unit(*fp),
            self.ctx.wf(),
            rec < self.ctx@.shape.voice.len(),
            port < self.ctx@.shape.voice[rec as int].num_outputs,
        ensures
            sum@ == voice_sum(
                *fp,
                self.ctx@,
                rec as int,
                port as int,
                self.ctx@.shape.max_voices,
            ),
    {
        let frames: usize = self.ctx.frames();
        let ghost ctx = self.ctx@;
        proof {
            self.ctx.lemma_wf();
        }
        let mut sum: Vec<u32> = vec![ZERO;frames];
        assert(sum@ =~= silence(frames as int));
        let max_voices: usize = self.ctx.max_voices();
        let mut slot: usize = 0;
        while slot < max_voices
            invariant
                slot <= max_voices == ctx.shape.max_voices,
                is_float_unit(*fp),
                self.ctx.wf(),
                ctx == self.ctx@,
                frames == ctx.frames,
                rec < ctx.shape.voice.len(),
                port < ctx.shape.voice[rec as int].num_outputs,
                sum@ == voice_sum(*fp, ctx, rec as int, port as int, slot as int),
                sum@.len() == frames,
            decreases max_voices - slot,
        {
            if self.ctx.is_active(slot) {
                let out = self.ctx.record_output(slot, rec, port);
                let ghost before = sum@;
                assert(out@.len() == frames);
                let mut i: usize = 0;
                while i < frames
                    invariant
                        i <= frames,
                        is_float_unit(*fp),
                        before.len() == frames,
                        sum@.len() == frames,
                        out@.len() == frames,
                        forall|k: int|
                            0 <= k < i ==> #[trigger] sum@[k] == eval32(
                                *fp,
                                FloatOp::Add(before[k], out@[k]),
                            ),
                        forall|k: int| i <= k < frames ==> #[trigger] sum@[k] == before[k],
                    decreases frames - i,
                {
                    let s: u32 = apply32(fp, FloatOp::Add(sum[i], out[i]));
                    sum.set(i, s);
                    i = i + 1;
                }
                assert(sum@ =~= voice_sum(*fp, ctx, rec as int, port as int, slot + 1));
            }
            slot = slot + 1;
        }
        sum
    }

    /// Writes the outputs of the walk into the device buffer.
    fn mix<F: Fn(FloatOp) -> u64>(
        &self,
        fp: &F,
        device: &mut Vec<u32>,
        capacity: usize,
        channels: usize,
    )
        requires
            is_float_unit(*fp),
            self.wf(capacity, channels),
            self.ctx@.frames * channels <= old(device)@.len(),
        ensures
            final(device)@ == interleaved(
                old(device)@,
                poly_channels(*fp, self.ctx@, self.sink@),
                self.ctx@.frames as int,
            ),
    {
        let ghost before = device@;
        let ghost ctx = self.ctx@;
        let frames: usize = self.ctx.frames();
        let ghost chans = poly_channels(*fp, ctx, self.sink@);
        proof {
            self.ctx.lemma_wf();
        }
        proof {
            lemma_none_written(before, chans, frames as int);
        }
        let mut c: usize = 0;
        while c < channels
            invariant
                c <= channels,
                is_float_unit(*fp),
                self.wf(capacity, channels),
                ctx == self.ctx@,
                frames == ctx.frames,
                channels == chans.len(),
                frames * channels <= before.len(),
                chans == poly_channels(*fp, ctx, self.sink@),
                device@.len() == before.len(),
                written_to(before, device@, chans, frames as int, c as int),
            decreases channels - c,
        {
            let ghost mid = device@;
            assert(voice_fed_from(ctx.shape, self.sink@));
            let samples: Vec<u32> = match self.sink[c] {
                Some(SinkSrc::Shared(rec, port)) => {
                    assert(self.sink@[c as int] == Some(SinkSrc::Shared(rec, port)));
                    self.ctx.shared_output(rec, port)
                },
                Some(SinkSrc::Voice(rec, port)) => {
                    assert(self.sink@[c as int] == Some(SinkSrc::Voice(rec, port)));
                    self.sum_voices(fp, rec, port)
                },
                None => vec![ZERO;frames],
            };
            assert(samples@ =~= chans[c as int]);
            proof {
                lemma_voice_sum(
                    *fp,
                    ctx,
                    self.sink@[c as int],
                );
            }
            put_channel(device, &samples, channels, c);
            proof {
                lemma_written_to(before, mid, device@, chans, frames as int, c as int);
            }
            c = c + 1;
        }
        proof {
            lemma_interleaved(before, device@, chans, frames as int);
        }
    }
}

/// A sum over voices is as long as the block.
proof fn lemma_voice_sum<F: Fn(FloatOp) -> u64>(fp: F, ctx: SourceView, src: Option<SinkSrc>)
    ensures
        match src {
            Some(SinkSrc::Voice(rec, port)) => voice_sum(
                fp,
                ctx,
                rec as int,
                port as int,
                ctx.shape.max_voices,
            ).len() == ctx.frames,
            _ => true,
        },
{
    if let Some(SinkSrc::Voice(rec, port)) = src {
        lemma_sum_len(fp, ctx, rec as int, port as int, ctx.shape.max_voices);
    }
}

proof fn lemma_sum_len<F: Fn(FloatOp) -> u64>(fp: F, ctx: SourceView, rec: int, port: int, n: int)
    ensures
        voice_sum(fp, ctx, rec, port, n).len() == ctx.frames,
    decreases n,
{
    if n > 0 {
        lemma_sum_len(fp, ctx, rec, port, n - 1);
    }
}

/// A block without voices takes the backend from `before` to `after`.
pub open spec fn mono_block<M: ModuleType, P: PolyphonicModule, F: Fn(FloatOp) -> u64>(
    before: EngineView<M, P, F>,
    after: BackView<M, P>,
    frames: usize,
) -> bool {
    before.back matches BackView::Mono { bytes, specs, fns, fed } && after == (BackView::<
        M,
        P,
    >::Mono {
        bytes: after_walk(
            bytes,
            mono_recs(before.capacity as int, specs),
            fns,
            tick_of(
                before.capacity,
                frames,
                before.sample_rate,
                start_time(before.fp, before.elapsed, before.sample_rate),
            ),
            specs.len() as int,
        ),
        specs,
        fns,
        fed,
    })
}

/// What the source sees at the start of a block.
pub open spec fn begun<F: Fn(FloatOp) -> u64>(
    fp: F,
    ctx: SourceView,
    frames: usize,
    sample_rate: u32,
    elapsed: u64,
) -> SourceView {
    SourceView { frames, sample_rate, time: start_time(fp, elapsed, sample_rate), ..ctx }
}

/// A block with voices takes the backend from `before` to `after`: the source plays, then the plan
/// is walked and voices are freed.
pub open spec fn poly_block<M: ModuleType, P: PolyphonicModule, F: Fn(FloatOp) -> u64>(
    before: EngineView<M, P, F>,
    after: BackView<M, P>,
    frames: usize,
) -> bool {
    &&& before.back matches BackView::Poly { ctx, fns, source, sink }
    &&& after matches BackView::Poly { ctx: ctx1, fns: fns1, source: source1, sink: sink1 }
    &&& fns1 == fns
    &&& sink1 == sink
    &&& exists|played: SourceView, tail: Tail| #[trigger]
        P::plays(
            (source, begun(before.fp, ctx, frames, before.sample_rate, before.elapsed)),
            (source1, played),
            tail,
        ) && same_setting(
            played,
            begun(before.fp, ctx, frames, before.sample_rate, before.elapsed),
        ) && ctx1 == walked(played, fns)
}

/// What the channels carry once a block has been rendered.
pub open spec fn rendered<M: ModuleType, P: PolyphonicModule, F: Fn(FloatOp) -> u64>(
    e: EngineView<M, P, F>,
    frames: usize,
) -> Seq<Seq<u32>> {
    match e.back {
        BackView::Mono { bytes, specs, fns, fed } => mono_channels(
            bytes,
            e.capacity as int,
            specs,
            fed,
            frames as int,
        ),
        BackView::Poly { ctx, fns, source, sink } => poly_channels(e.fp, ctx, sink),
    }
}

impl<M: ModuleType, S: SourceType, F: Fn(FloatOp) -> u64> View for PlanEngine<M, S, F> {
    type V = EngineView<M, S::Module, F>;

    closed spec fn view(&self) -> EngineView<M, S::Module, F> {
        EngineView {
            back: match self.backend {
                Backend::Mono(m) => BackView::Mono {
                    bytes: m.plan.bytes(),
                    specs: m.plan.specs(),
                    fns: m.fns@,
                    fed: m.sink@,
                },
                Backend::Poly(p) => BackView::Poly {
                    ctx: p.ctx@,
                    fns: p.fns@,
                    source: p.source,
                    sink: p.sink@,
                },
            },
            channels: self.channels,
            sample_rate: self.sample_rate,
            capacity: self.capacity,
            elapsed: self.elapsed_frames,
            fp: self.fp,
        }
    }
}

impl<M: ModuleType, S: SourceType, F: Fn(FloatOp) -> u64> PlanEngine<M, S, F> {
    /// The plan is in order, its records can be run, and every channel reads something that is
    /// there.
    pub closed spec fn wf(&self) -> bool {
        &&& is_float_unit(self.fp)
        &&& match self.backend {
            Backend::Mono(m) => m.wf(self.capacity, self.channels),
            Backend::Poly(p) => p.wf(self.capacity, self.channels),
        }
    }

    /// What a well-formed engine holds: every channel reads an output that is there, or nothing.
    pub proof fn lemma_wf(&self)
        requires
            self.wf(),
        ensures
            is_float_unit(self@.fp),
            match self@.back {
                BackView::Mono { bytes, specs, fns, fed } => {
                    &&& plannable(self@.capacity as int, specs)
                    &&& bytes.len() == mono_len(self@.capacity as int, specs)
                    &&& holds(
                        bytes,
                        mono_recs(self@.capacity as int, specs),
                        self@.capacity as int,
                        mono_term(self@.capacity as int, specs),
                    )
                    &&& zeroed(bytes, zero_off(), mono_start(self@.capacity as int))
                    &&& fed.len() == self@.channels
                    &&& fed_from(specs, fed)
                },
                BackView::Poly { ctx, fns, source, sink } => {
                    &&& consistent(ctx)
                    &&& ctx.shape.block_size == self@.capacity
                    &&& in_order(SlotsView { states: ctx.states, free: ctx.free })
                    &&& scheduled(
                        ctx.bytes,
                        ctx.shape,
                        Seq::new(ctx.states.len(), |s: int| ctx.states[s] != SlotState::Free),
                    )
                    &&& sink.len() == self@.channels
                    &&& voice_fed_from(ctx.shape, sink)
                },
            },
            forall|frames: usize| (#[trigger] rendered(self@, frames)).len() == self@.channels,
    {
        match &self.backend {
            Backend::Mono(m) => {
                m.plan.lemma_wf();
            },
            Backend::Poly(p) => {
                p.ctx.lemma_wf();
            },
        }
    }

    /// The sample rate, as the bit pattern of a single-precision number.
    pub fn sample_rate(&self) -> (r: u32)
        ensures
            r == self@.sample_rate,
    {
        self.sample_rate
    }

    /// The number of output channels.
    pub fn channels(&self) -> (n: usize)
        ensures
            n == self@.channels,
    {
        self.channels
    }

    /// The voice source, if the patch has one.
    pub fn source_mut(&mut self) -> (source: Option<&mut S::Module>)
        requires
            old(self).wf(),
        ensures
            match source {
                Some(m) => {
                    &&& old(self)@.back matches BackView::Poly { ctx, fns, source: was, sink }
                    &&& *m == was
                    &&& final(self)@ == (EngineView {
                        back: BackView::Poly { ctx, fns, source: *final(m), sink },
                        ..old(self)@
                    })
                    &&& final(m).suits(ctx.shape.max_voices, ctx.shape.num_source_outputs)
                        ==> final(self).wf()
                },
                None => old(self)@.back is Mono && *final(self) == *old(self),
            },
    {
        match &mut self.backend {
            Backend::Mono(_) => None,
            Backend::Poly(p) => Some(&mut p.source),
        }
    }

    /// Process one block, writing `frames` interleaved frames into `device`
    /// (`device.len()` must be `frames * channels`).
    pub fn process_block(&mut self, device: &mut Vec<u32>, frames: usize)
        requires
            old(self).wf(),
            block_frames(frames, old(self)@.capacity) * old(self)@.channels <= old(device)@.len(),
            old(self)@.elapsed + block_frames(frames, old(self)@.capacity) <= u64::MAX,
        ensures
            final(self).wf(),
            ({
                let n = block_frames(frames, old(self)@.capacity);
                &&& final(self)@ == (EngineView {
                    back: final(self)@.back,
                    elapsed: (old(self)@.elapsed + n) as u64,
                    ..old(self)@
                })
                &&& match old(self)@.back {
                    BackView::Mono { .. } => mono_block(old(self)@, final(self)@.back, n),
                    BackView::Poly { .. } => poly_block(old(self)@, final(self)@.back, n),
                }
                &&& final(device)@ == interleaved(
                    old(device)@,
                    rendered(final(self)@, n),
                    n as int,
                )
            }),
    {
        let ghost before = self@;
        let frames: usize = if frames <= self.capacity {
            frames
        } else {
            self.capacity
        };
        let elapsed: u64 = apply(&self.fp, FloatOp::U64ToF64(self.elapsed_frames));
        let rate: u64 = apply(&self.fp, FloatOp::F32ToF64(self.sample_rate));
        let time: u64 = apply(&self.fp, FloatOp::DivF64(elapsed, rate));
        let sr: u32 = self.sample_rate;
        let ghost mut played: SourceView = arbitrary();
        let ghost mut reported: Tail = arbitrary();
        match &mut self.backend {
            Backend::Mono(m) => {
                m.plan.run(m.fns.as_slice(), sr, time, frames);
                m.mix(device, frames, self.capacity, self.channels);
            },
            Backend::Poly(p) => {
                let ghost start = begun(self.fp, p.ctx@, frames, sr, self.elapsed_frames);
                let ghost was = p.source;
                p.ctx.begin(frames, sr, time);
                assert(p.ctx@ == start);
                let tail = p.source.process(&mut p.ctx);
                proof {
                    p.ctx.lemma_wf();
                    played = p.ctx@;
                    reported = tail;
                    assert(S::Module::plays((was, start), (p.source, played), reported));
                }
                p.ctx.walk(p.fns.as_slice(), &mut p.slot_alive);
                p.mix(&self.fp, device, self.capacity, self.channels);
            },
        }
        self.elapsed_frames = self.elapsed_frames + frames as u64;
        proof {
            if let BackView::Poly { ctx, fns, source, sink } = before.back {
                assert(self@.back matches BackView::Poly { ctx: _, fns: _, source: now, sink: _ }
                    && S::Module::plays(
                    (source, begun(before.fp, ctx, frames, sr, before.elapsed)),
                    (now, played),
                    reported,
                ));
                assert(poly_block(before, self@.back, frames));
            }
        }
    }
}

/// The nodes among the first `n` that are voice sources.
pub open spec fn source_nodes<M: ModuleType, S: SourceType>(
    registry: Registry<M, S>,
    nodes: Seq<Node>,
    n: int,
) -> Seq<usize>
    decreases n,
{
    if n <= 0 {
        Seq::empty()
    } else if registry.sources().dom().contains(nodes[n - 1].ty@) {
        source_nodes(registry, nodes, n - 1).push((n - 1) as usize)
    } else {
        source_nodes(registry, nodes, n - 1)
    }
}

/// The nodes that are records of a patch without a voice source, in order: all but the sink.
pub open spec fn mono_list(r: Resolved) -> Seq<usize> {
    all_chosen(r.order@, all_but(r.in_srcs@.len() as int, r.sink))
}

/// The backend is what a resolved patch without a voice source is compiled to.
pub open spec fn mono_of<M: ModuleType, S: SourceType>(
    registry: Registry<M, S>,
    nodes: Seq<Node>,
    r: Resolved,
    capacity: usize,
    back: BackView<M, S::Module>,
) -> bool {
    &&& back matches BackView::Mono { bytes, specs, fns, fed }
    &&& are_records(registry, nodes, r, mono_list(r), fns, specs)
    &&& fns.len() <= u32::MAX
    &&& laid_out(bytes, capacity as int, specs)
    &&& all_feed(mono_list(r), r.in_srcs@[r.sink as int]@, fed)
}

/// The records of a resolved patch without a voice source do not fit one plan.
pub open spec fn mono_too_large<M: ModuleType, S: SourceType>(
    registry: Registry<M, S>,
    nodes: Seq<Node>,
    r: Resolved,
    capacity: usize,
) -> bool {
    exists|fns: Seq<M>, specs: Seq<RecordSpec>| #[trigger]
        are_records(registry, nodes, r, mono_list(r), fns, specs) && !(countable(specs)
            && mono_len(capacity as int, specs) <= u32::MAX)
}

/// The shape of a plan of these records, with the default number of slots.
pub open spec fn shape_of<M: ModuleType>(
    p: PolyRecords<M>,
    capacity: usize,
    num_source_outputs: nat,
) -> VoicedShape {
    poly_shape(p, capacity as int, num_source_outputs as int, DEFAULT_MAX_VOICES as int)
}

/// Number of outputs that a voice source describes. A source that stands where the sink does has
/// them too, though no wire can lead from there.
pub open spec fn source_outputs<M: ModuleType, S: SourceType>(
    registry: Registry<M, S>,
    node: Node,
) -> nat {
    registry.sources()[node.ty@].source.desc(settings(node.params)).outputs.len()
}

/// The backend is what a resolved patch with a voice source is compiled to: no voice plays, and
/// no block has begun.
pub open spec fn poly_of<M: ModuleType, S: SourceType>(
    registry: Registry<M, S>,
    nodes: Seq<Node>,
    r: Resolved,
    source: usize,
    capacity: usize,
    back: BackView<M, S::Module>,
) -> bool {
    let nd = nodes[source as int];
    &&& back matches BackView::Poly { ctx, fns, source: made, sink }
    &&& registry.sources()[nd.ty@].source.makes(settings(nd.params), Ok(made))
    &&& exists|p: PolyRecords<M>| #[trigger]
        compiles_to(registry, nodes, r, source, p) && p.fns@ == fns && fns.len() <= u32::MAX
            && p.sink@ == sink && ctx == (SourceView {
            frames: 0,
            sample_rate: 0,
            time: 0,
            bytes: ctx.bytes,
            shape: shape_of(p, capacity, source_outputs(registry, nd)),
            states: Seq::new(DEFAULT_MAX_VOICES as nat, |s: int| SlotState::Free),
            free: Seq::new(
                DEFAULT_MAX_VOICES as nat,
                |i: int| (DEFAULT_MAX_VOICES - 1 - i) as usize,
            ),
            templates: state_views(p.template_states@),
        }) && voices_laid_out(ctx.bytes, ctx.shape)
}

/// The records of a resolved patch with a voice source do not fit one plan.
pub open spec fn poly_too_large<M: ModuleType, S: SourceType>(
    registry: Registry<M, S>,
    nodes: Seq<Node>,
    r: Resolved,
    source: usize,
    capacity: usize,
) -> bool {
    exists|p: PolyRecords<M>| #[trigger]
        compiles_to(registry, nodes, r, source, p) && !shape_of(
            p,
            capacity,
            source_outputs(registry, nodes[source as int]),
        ).addressable()
}

/// The sink of a resolved patch has one input per channel.
proof fn lemma_sink_inputs<M: ModuleType, S: SourceType, F: Fn(FloatOp) -> u64>(
    patch: Patch,
    registry: Registry<M, S>,
    fp: F,
    r: Resolved,
)
    requires
        resolves_to(patch, registry, fp, r),
    ensures
        r.in_srcs@[r.sink as int]@.len() == r.channels,
{
}

/// Every record takes room.
proof fn lemma_record_count(start: int, block_size: int, specs: Seq<RecordSpec>, i: int)
    requires
        0 <= i <= specs.len(),
        0 <= start,
        start % 64 == 0,
        0 <= block_size,
    ensures
        start + i <= rec_off(start, block_size, specs, i),
    decreases i,
{
    if i > 0 {
        lemma_record_count(start, block_size, specs, i - 1);
        lemma_rec_off(start, block_size, specs, i - 1, i);
        lemma_spec_end(rec_off(start, block_size, specs, i - 1), specs[i - 1], block_size);
    }
}

/// Every voice record takes room.
proof fn lemma_voice_count(shape: VoicedShape, m: int)
    requires
        shape.plannable(),
        0 < shape.max_voices,
        0 <= m <= shape.voice.len(),
    ensures
        shape.first_voice() + m <= shape.voice_base(m),
    decreases m,
{
    if m > 0 {
        lemma_voice_count(shape, m - 1);
        shape.lemma_voice_off(m - 1, 0);
    }
}

/// Finds the voice sources of a patch.
fn find_sources<M: ModuleType, S: SourceType>(
    registry: &Registry<M, S>,
    nodes: &Vec<Node>,
) -> (sources: Vec<usize>)
    ensures
        sources@ == source_nodes(*registry, nodes@, nodes@.len() as int),
        forall|k: int|
            0 <= k < sources@.len() ==> #[trigger] sources@[k] < nodes@.len()
                && registry.sources().dom().contains(nodes@[sources@[k] as int].ty@),
        forall|i: int|
            0 <= i < nodes@.len() && registry.sources().dom().contains((#[trigger] nodes@[i]).ty@)
                ==> sources@.contains(i as usize),
{
    let mut sources: Vec<usize> = Vec::new();
    let mut i: usize = 0;
    while i < nodes.len()
        invariant
            i <= nodes.len(),
            sources@ == source_nodes(*registry, nodes@, i as int),
            forall|k: int|
                0 <= k < sources@.len() ==> #[trigger] sources@[k] < i
                    && registry.sources().dom().contains(nodes@[sources@[k] as int].ty@),
            forall|j: int|
                0 <= j < i && registry.sources().dom().contains((#[trigger] nodes@[j]).ty@)
                    ==> sources@.contains(j as usize),
        decreases nodes.len() - i,
    {
        if registry.is_source(nodes[i].ty.as_str()) {
            let ghost before = sources@;
            sources.push(i);
            proof {
                assert forall|j: int|
                    0 <= j < i + 1 && registry.sources().dom().contains(
                        (#[trigger] nodes@[j]).ty@,
                    ) implies sources@.contains(j as usize) by {
                    if j < i {
                        let k = choose|k: int| 0 <= k < before.len() && before[k] == j as usize;
                        assert(sources@[k] == j as usize);
                    } else {
                        assert(sources@[before.len() as int] == j as usize);
                    }
                }
            }
        }
        i = i + 1;
    }
    sources
}

/// Compiles a patch without a voice source.
fn build_mono<M: ModuleType + Copy, S: SourceType, F: Fn(FloatOp) -> u64>(
    patch: &Patch,
    registry: &Registry<M, S>,
    r: &Resolved,
    capacity: usize,
    Ghost(fp): Ghost<F>,
) -> (res: Option<Mono<M>>)
    requires
        resolves_to(*patch, *registry, fp, *r),
        registry_ready(*registry),
        consistent_nodes(*registry, patch.nodes@, r.sink as int),
        all_modules(*registry, patch.nodes@),
    ensures
        match res {
            Some(m) => m.wf(capacity, r.channels) && mono_of(
                *registry,
                patch.nodes@,
                *r,
                capacity,
                BackView::<M, S::Module>::Mono {
                    bytes: m.plan.bytes(),
                    specs: m.plan.specs(),
                    fns: m.fns@,
                    fed: m.sink@,
                },
            ),
            None => mono_too_large(*registry, patch.nodes@, *r, capacity),
        },
{
    let (records, fns, sink) = mono_records::<M, S, F>(patch, registry, r, Ghost(fp));
    let ghost list = mono_list(*r);
    let ghost nodes = patch.nodes@;
    assert(are_records(*registry, nodes, *r, list, fns@, records@));
    if !plan_fits(capacity, records.as_slice()) {
        return None;
    }
    proof {
        let bs = capacity as int;
        let n = records@.len() as int;
        lemma_record_count(mono_start(bs), bs, records@, n);
        lemma_params_at(params_start(mono_term(bs, records@)), param_lens(records@), 0, n);
        lemma_fed_right(*patch, *registry, fp, *r);
        lemma_sink_inputs(*patch, *registry, fp, *r);
        let srcs = r.in_srcs@[r.sink as int]@;
        assert forall|c: int| 0 <= c < sink@.len() implies match #[trigger] sink@[c] {
            Some((rec, port)) => rec < records@.len() && port < records@[rec as int].num_outputs,
            None => true,
        } by {
            assert(feeds(list, srcs[c], sink@[c]));
            if let Some((rec, port)) = sink@[c] {
                assert(is_record(*registry, nodes, *r, list, fns@, list[rec as int], records@[rec as int]));
            }
        }
    }
    let plan = Plan::build(capacity, records.as_slice());
    Some(Mono { plan, fns, sink })
}

/// Compiles a patch with a voice source.
fn build_poly<M: ModuleType + Copy, S: SourceType, F: Fn(FloatOp) -> u64>(
    patch: &Patch,
    registry: &Registry<M, S>,
    r: &Resolved,
    source: usize,
    capacity: usize,
    Ghost(fp): Ghost<F>,
) -> (res: Result<Poly<M, S::Module>, EngineError>)
    requires
        resolves_to(*patch, *registry, fp, *r),
        registry_ready(*registry),
        consistent_nodes(*registry, patch.nodes@, r.sink as int),
        one_source(*registry, patch.nodes@, source),
        source < patch.nodes@.len(),
        registry.sources().dom().contains(patch.nodes@[source as int].ty@),
    ensures
        match res {
            Ok(p) => p.wf(capacity, r.channels) && poly_of(
                *registry,
                patch.nodes@,
                *r,
                source,
                capacity,
                BackView::<M, S::Module>::Poly {
                    ctx: p.ctx@,
                    fns: p.fns@,
                    source: p.source,
                    sink: p.sink@,
                },
            ),
            Err(EngineError::Source(e)) => registry.sources()[patch.nodes@[source as int].ty@].source.makes(
                settings(patch.nodes@[source as int].params),
                Err(e),
            ),
            Err(EngineError::TooLarge) => poly_too_large(
                *registry,
                patch.nodes@,
                *r,
                source,
                capacity,
            ),
            Err(_) => false,
        },
{
    let p = poly_records::<M, S, F>(patch, registry, r, source, Ghost(fp));
    let ghost all = p;
    let nd = &patch.nodes[source];
    let entry = match registry.source(nd.ty.as_str()) {
        Some(entry) => entry,
        None => {
            assert(false);
            return Err(EngineError::TooLarge);
        },
    };
    let num_source_outputs: usize = entry.source.describe(&nd.params).outputs.len();
    let ghost nodes = patch.nodes@;
    let ghost shape = shape_of(p, capacity, num_source_outputs as nat);
    assert(compiles_to(*registry, nodes, *r, source, all));
    if !voiced_plan_fits(
        capacity,
        p.shared.as_slice(),
        num_source_outputs,
        p.voice.as_slice(),
        DEFAULT_MAX_VOICES,
    ) {
        return Err(EngineError::TooLarge);
    }
    proof {
        let flat = poly_shape(p, 0, r.out_counts@[source as int] as int, 0);
        assert(flat.voice_topological());
        let net = net_of(*registry, nodes, r.sink as int, r.channels as int);
        assert(r.out_counts@[source as int] == net.outs[source as int].len());
        assert(flat.num_source_outputs <= shape.num_source_outputs);
        assert(shape.voice_topological()) by {
            assert forall|m: int, k: int|
                #![trigger shape.voice[m].inputs@[k]]
                0 <= m < shape.voice.len() && 0 <= k
                    < shape.voice[m].inputs@.len() implies match shape.voice[m].inputs@[k] {
                VoiceSource::Shared(rec, port) => rec < shape.shared.len() && port
                    < shape.shared[rec as int].num_outputs,
                VoiceSource::SourceOut(port) => port < shape.num_source_outputs,
                VoiceSource::Voice(rec, port) => rec < m && port
                    < shape.voice[rec as int].num_outputs,
                VoiceSource::Zero => true,
            } by {
                assert(flat.voice[m].inputs@[k] == shape.voice[m].inputs@[k]);
            }
        }
        assert(shape.plannable());
        shape.lemma_front();
        shape.lemma_term();
        lemma_record_count(
            shape.records_start(),
            shape.block_size,
            shape.shared,
            shape.shared.len() as int,
        );
        lemma_voice_count(shape, shape.voice.len() as int);
        assert(all_runnable(p.fns@, flat));
        assert(all_runnable(p.fns@, shape)) by {
            assert(flat.shared == shape.shared && flat.voice == shape.voice);
        }
        lemma_fed_right(*patch, *registry, fp, *r);
        lemma_sink_inputs(*patch, *registry, fp, *r);
        lemma_sink_from_records(*patch, *registry, fp, *r, source, p, shape);
    }
    let plan = VoicedPlan::build(
        capacity,
        p.shared.as_slice(),
        num_source_outputs,
        p.voice.as_slice(),
        DEFAULT_MAX_VOICES,
    );
    match entry.source.make(&nd.params) {
        Err(e) => Err(EngineError::Source(e)),
        Ok(source_module) => {
            let slots = SlotManager::new(DEFAULT_MAX_VOICES);
            let PolyRecords { shared: _, voice: _, template_states, fns, sink } = p;
            proof {
                assert forall|m: int|
                    0 <= m < template_states@.len() implies (#[trigger] template_states@[m])@.len()
                    == plan.shape().voice[m].state@.len() by {
                    assert(all.template_states@[m]@ == all.voice@[m].state@);
                }
            }
            let ctx = SourceCtx::new(plan, slots, template_states);
            let slot_alive: Vec<bool> = vec![false;DEFAULT_MAX_VOICES];
            Ok(Poly { ctx, fns, source: source_module, sink, slot_alive })
        },
    }
}

/// Every channel of a patch with a voice source is fed by an output that is there, or by nothing.
proof fn lemma_sink_from_records<M: ModuleType, S: SourceType, F: Fn(FloatOp) -> u64>(
    patch: Patch,
    registry: Registry<M, S>,
    fp: F,
    r: Resolved,
    source: usize,
    p: PolyRecords<M>,
    shape: VoicedShape,
)
    requires
        resolves_to(patch, registry, fp, r),
        compiles_to(registry, patch.nodes@, r, source, p),
        shape.shared == p.shared@,
        shape.voice == p.voice@,
        fed_right(r, hop_edges(patch_hops(patch, registry, fp)), patch.nodes@.len() as int),
    ensures
        voice_fed_from(shape, p.sink@),
{
    let d = division(r, source);
    let srcs = r.in_srcs@[r.sink as int]@;
    let nodes = patch.nodes@;
    let shared = all_chosen(r.order@, d.shared);
    let voice = all_chosen(r.order@, d.voice);
    assert forall|c: int| 0 <= c < p.sink@.len() implies match #[trigger] p.sink@[c] {
        Some(SinkSrc::Shared(rec, port)) => rec < shape.shared.len() && port
            < shape.shared[rec as int].num_outputs,
        Some(SinkSrc::Voice(rec, port)) => rec < shape.voice.len() && port
            < shape.voice[rec as int].num_outputs,
        None => true,
    } by {
        assert(voice_feeds(d, r.order@, srcs[c], p.sink@[c]));
        match p.sink@[c] {
            Some(SinkSrc::Shared(rec, port)) => {
                assert(is_record(
                    registry,
                    nodes,
                    r,
                    shared,
                    p.fns@,
                    shared[rec as int],
                    p.shared@[rec as int],
                ));
            },
            Some(SinkSrc::Voice(rec, port)) => {
                assert(is_voice_record(
                    registry,
                    nodes,
                    r,
                    d,
                    p.fns@,
                    voice[rec as int],
                    p.voice@[rec as int],
                ));
            },
            None => {},
        }
    }
}

/// The engine is what the patch compiles to.
pub open spec fn engine_of<M: ModuleType, S: SourceType, F: Fn(FloatOp) -> u64>(
    patch: Patch,
    registry: Registry<M, S>,
    capacity: usize,
    fp: F,
    e: EngineView<M, S::Module, F>,
) -> bool {
    let nodes = patch.nodes@;
    let sources = source_nodes(registry, nodes, nodes.len() as int);
    exists|r: Resolved| #[trigger]
        resolves_to(patch, registry, fp, r) && e == (EngineView::<M, S::Module, F> {
            back: e.back,
            channels: r.channels,
            sample_rate: r.sample_rate,
            capacity,
            elapsed: 0,
            fp,
        }) && if sources.len() == 0 {
            mono_of(registry, nodes, r, capacity, e.back)
        } else {
            poly_of(registry, nodes, r, sources[0], capacity, e.back)
        }
}

/// The records of the patch do not fit one plan.
pub open spec fn too_large<M: ModuleType, S: SourceType, F: Fn(FloatOp) -> u64>(
    patch: Patch,
    registry: Registry<M, S>,
    capacity: usize,
    fp: F,
) -> bool {
    let nodes = patch.nodes@;
    let sources = source_nodes(registry, nodes, nodes.len() as int);
    exists|r: Resolved| #[trigger]
        resolves_to(patch, registry, fp, r) && if sources.len() == 0 {
            mono_too_large(registry, nodes, r, capacity)
        } else {
            poly_too_large(registry, nodes, r, sources[0], capacity)
        }
}

impl<M: ModuleType + Copy, S: SourceType, F: Fn(FloatOp) -> u64> PlanEngine<M, S, F> {
    /// Compile a patch into a plan. `capacity` is the maximum block size (frames).
    pub fn build(patch: &Patch, registry: &Registry<M, S>, capacity: usize, fp: F) -> (res: Result<
        PlanEngine<M, S, F>,
        EngineError,
    >)
        requires
            is_float_unit(fp),
            registry_ready(*registry),
        ensures
            ({
                let nodes = patch.nodes@;
                let sources = source_nodes(*registry, nodes, nodes.len() as int);
                let nd = nodes[sources[0] as int];
                let fault = patch_fault(*patch, *registry, fp);
                match res {
                    Ok(e) => {
                        &&& fault is None
                        &&& sources.len() <= 1
                        &&& e.wf()
                        &&& engine_of(*patch, *registry, capacity, fp, e@)
                    },
                    Err(EngineError::MultipleSources) => fault is None && sources.len() > 1,
                    Err(EngineError::Source(e)) => fault is None && sources.len() == 1
                        && registry.sources()[nd.ty@].source.makes(settings(nd.params), Err(e)),
                    Err(EngineError::TooLarge) => fault is None && sources.len() <= 1 && too_large(
                        *patch,
                        *registry,
                        capacity,
                        fp,
                    ),
                    Err(e) => fault == Some(e@),
                }
            }),
    {
        let r = match resolve(patch, registry, &fp) {
            Ok(r) => r,
            Err(e) => {
                return Err(e);
            },
        };
        let sources = find_sources(registry, &patch.nodes);
        if sources.len() > 1 {
            return Err(EngineError::MultipleSources);
        }
        let backend = if sources.len() == 0 {
            match build_mono::<M, S, F>(patch, registry, &r, capacity, Ghost(fp)) {
                Some(m) => Backend::Mono(m),
                None => {
                    return Err(EngineError::TooLarge);
                },
            }
        } else {
            let source: usize = sources[0];
            proof {
                assert forall|i: int|
                    0 <= i < patch.nodes@.len() && i
                        != source implies !registry.sources().dom().contains(
                    (#[trigger] patch.nodes@[i]).ty@,
                ) by {
                    if registry.sources().dom().contains(patch.nodes@[i].ty@) {
                        assert(sources@.contains(i as usize));
                    }
                }
            }
            match build_poly::<M, S, F>(patch, registry, &r, source, capacity, Ghost(fp)) {
                Ok(p) => Backend::Poly(p),
                Err(e) => {
                    return Err(e);
                },
            }
        };
        Ok(
            PlanEngine {
                backend,
                channels: r.channels,
                sample_rate: r.sample_rate,
                capacity,
                elapsed_frames: 0,
                fp,
            },
        )
    }
}

/// An unconnected channel is silent.
pub proof fn law_unconnected_channel_is_silent<
    M: ModuleType,
    P: PolyphonicModule,
    F: Fn(FloatOp) -> u64,
>(e: EngineView<M, P, F>, device: Seq<u32>, frames: usize, c: int, i: int)
    requires
        0 <= c < rendered(e, frames).len(),
        0 <= i < frames,
        frames * rendered(e, frames).len() <= device.len(),
        match e.back {
            BackView::Mono { bytes, specs, fns, fed } => fed[c] is None,
            BackView::Poly { ctx, fns, source, sink } => sink[c] is None && ctx.frames == frames,
        },
    ensures
        interleaved(device, rendered(e, frames), frames as int)[i * rendered(e, frames).len() + c]
            == ZERO,
{
    law_frames_are_interleaved(device, rendered(e, frames), frames as int, c, i);
}

/// Channels that are fed by the same output carry the same signal.
pub proof fn law_fan_out_carries_one_signal<
    M: ModuleType,
    P: PolyphonicModule,
    F: Fn(FloatOp) -> u64,
>(e: EngineView<M, P, F>, frames: usize, c: int, d: int)
    requires
        0 <= c < rendered(e, frames).len(),
        0 <= d < rendered(e, frames).len(),
        match e.back {
            BackView::Mono { bytes, specs, fns, fed } => fed[c] == fed[d],
            BackView::Poly { ctx, fns, source, sink } => sink[c] == sink[d],
        },
    ensures
        rendered(e, frames)[c] == rendered(e, frames)[d],
{
}

/// A channel that is fed by voices is silent while no slot holds a voice.
pub proof fn law_no_voice_no_sound<F: Fn(FloatOp) -> u64>(
    fp: F,
    ctx: SourceView,
    rec: int,
    port: int,
    n: int,
)
    requires
        forall|s: int| 0 <= s < n ==> #[trigger] ctx.states[s] == SlotState::Free,
    ensures
        voice_sum(fp, ctx, rec, port, n) == silence(ctx.frames as int),
    decreases n,
{
    if n > 0 {
        law_no_voice_no_sound(fp, ctx, rec, port, n - 1);
    }
}

/// Sample `i` of what the copy of voice module `rec` in slot `slot` wrote to output `port`.
pub open spec fn voice_sample(ctx: SourceView, rec: int, slot: int, port: int, i: int) -> u32 {
    word_at(ctx.bytes, ctx.shape.voice_port_off(rec, slot, port) + 4 * i)
}

/// Every voice counts once, with its own signal: the sum over the slots up to a sounding one is the
/// sum over the slots before it plus what was written in that very slot, and a free slot adds
/// nothing.
pub proof fn law_each_voice_is_added<F: Fn(FloatOp) -> u64>(
    fp: F,
    ctx: SourceView,
    rec: int,
    port: int,
    slot: int,
    i: int,
)
    requires
        ctx.shape.plannable(),
        0 <= rec < ctx.shape.voice.len(),
        0 <= slot < ctx.shape.max_voices,
        0 <= i < ctx.frames,
    ensures
        voice_sum(fp, ctx, rec, port, 0)[i] == ZERO,
        ctx.states[slot] == SlotState::Free ==> voice_sum(fp, ctx, rec, port, slot + 1)[i]
            == voice_sum(fp, ctx, rec, port, slot)[i],
        ctx.states[slot] != SlotState::Free ==> voice_sum(fp, ctx, rec, port, slot + 1)[i]
            == eval32(
            fp,
            FloatOp::Add(
                voice_sum(fp, ctx, rec, port, slot)[i],
                voice_sample(ctx, rec, slot, port, i),
            ),
        ),
{
    ctx.shape.lemma_voice_off(rec, slot);
    assert(ctx.shape.voice_rec(rec, slot).output_off(port, ctx.shape.block_size)
        == ctx.shape.voice_port_off(rec, slot, port));
}

/// Slots that hold no voice after slot `from` leave a sum as it is.
proof fn lemma_free_slots_add_nothing<F: Fn(FloatOp) -> u64>(
    fp: F,
    ctx: SourceView,
    rec: int,
    port: int,
    from: int,
    n: int,
)
    requires
        0 <= from <= n,
        forall|s: int| from <= s < n ==> #[trigger] ctx.states[s] == SlotState::Free,
    ensures
        voice_sum(fp, ctx, rec, port, n) == voice_sum(fp, ctx, rec, port, from),
    decreases n - from,
{
    if from < n {
        lemma_free_slots_add_nothing(fp, ctx, rec, port, from, n - 1);
        assert(ctx.states[n - 1] == SlotState::Free);
    }
}

/// A voice on its own is heard as it is, whichever slot it is in.
pub proof fn law_single_voice_is_heard<F: Fn(FloatOp) -> u64>(
    fp: F,
    ctx: SourceView,
    rec: int,
    port: int,
    slot: int,
    i: int,
)
    requires
        ctx.shape.plannable(),
        0 <= rec < ctx.shape.voice.len(),
        0 <= slot < ctx.shape.max_voices,
        0 <= i < ctx.frames,
        ctx.states[slot] != SlotState::Free,
        forall|s: int|
            0 <= s < ctx.shape.max_voices && s != slot ==> #[trigger] ctx.states[s]
                == SlotState::Free,
    ensures
        voice_sum(fp, ctx, rec, port, ctx.shape.max_voices)[i] == eval32(
            fp,
            FloatOp::Add(ZERO, voice_sample(ctx, rec, slot, port, i)),
        ),
{
    law_no_voice_no_sound(fp, ctx, rec, port, slot);
    law_each_voice_is_added(fp, ctx, rec, port, slot, i);
    lemma_free_slots_add_nothing(fp, ctx, rec, port, slot + 1, ctx.shape.max_voices);
}

/// The sum hangs on the sounding slots alone: two blocks in which the same slots sound and wrote
/// the same samples sum up to the same channel.
pub proof fn law_only_sounding_slots_count<F: Fn(FloatOp) -> u64>(
    fp: F,
    a: SourceView,
    b: SourceView,
    rec: int,
    port: int,
    n: int,
    i: int,
)
    requires
        a.shape.plannable(),
        b.shape == a.shape,
        b.frames == a.frames,
        0 <= rec < a.shape.voice.len(),
        0 <= n <= a.shape.max_voices,
        0 <= i < a.frames,
        forall|s: int|
            0 <= s < n ==> ((#[trigger] a.states[s] == SlotState::Free) == (b.states[s]
                == SlotState::Free)),
        forall|s: int|
            0 <= s < n && a.states[s] != SlotState::Free ==> #[trigger] voice_sample(
                a,
                rec,
                s,
                port,
                i,
            ) == voice_sample(b, rec, s, port, i),
    ensures
        voice_sum(fp, a, rec, port, n)[i] == voice_sum(fp, b, rec, port, n)[i],
    decreases n,
{
    if n > 0 {
        law_only_sounding_slots_count(fp, a, b, rec, port, n - 1, i);
        law_each_voice_is_added(fp, a, rec, port, n - 1, i);
        law_each_voice_is_added(fp, b, rec, port, n - 1, i);
    }
}

/// A channel of a patch without voices carries, frame by frame, what the record that feeds it wrote
/// to the output that is connected.
pub proof fn law_mono_channel_carries_its_output<
    M: ModuleType,
    P: PolyphonicModule,
    F: Fn(FloatOp) -> u64,
>(e: EngineView<M, P, F>, device: Seq<u32>, frames: usize, c: int, i: int)
    requires
        e.back is Mono,
        0 <= c < e.back->fed.len(),
        e.back->fed[c] is Some,
        fed_from(e.back->specs, e.back->fed),
        0 <= i < frames,
        frames * e.back->fed.len() <= device.len(),
    ensures
        ({
            let (rec, port) = e.back->fed[c]->0;
            let cap = e.capacity as int;
            interleaved(device, rendered(e, frames), frames as int)[i * e.back->fed.len() + c]
                == word_at(
                e.back->bytes,
                port_off(mono_start(cap), cap, e.back->specs, rec as int, port as int) + 4 * i,
            )
        }),
{
    law_frames_are_interleaved(device, rendered(e, frames), frames as int, c, i);
}

/// A channel of a patch with voices carries what feeds it: the output of a shared record as it is,
/// and of a voice module the sum over the voices, which is the voice itself where only one sounds.
pub proof fn law_poly_channel_carries_its_output<
    M: ModuleType,
    P: PolyphonicModule,
    F: Fn(FloatOp) -> u64,
>(e: EngineView<M, P, F>, device: Seq<u32>, frames: usize, c: int, i: int, slot: int)
    requires
        e.back is Poly,
        e.back->ctx.shape.plannable(),
        e.back->ctx.frames == frames,
        voice_fed_from(e.back->ctx.shape, e.back->sink),
        0 <= c < e.back->sink.len(),
        0 <= i < frames,
        frames * e.back->sink.len() <= device.len(),
    ensures
        ({
            let ctx = e.back->ctx;
            let heard = interleaved(device, rendered(e, frames), frames as int)[i
                * e.back->sink.len() + c];
            match e.back->sink[c] {
                None => heard == ZERO,
                Some(SinkSrc::Shared(rec, port)) => heard == word_at(
                    ctx.bytes,
                    port_off(
                        ctx.shape.records_start(),
                        ctx.shape.block_size,
                        ctx.shape.shared,
                        rec as int,
                        port as int,
                    ) + 4 * i,
                ),
                Some(SinkSrc::Voice(rec, port)) => {
                    &&& (forall|s: int|
                        0 <= s < ctx.shape.max_voices ==> #[trigger] ctx.states[s]
                            == SlotState::Free) ==> heard == ZERO
                    &&& (0 <= slot < ctx.shape.max_voices && ctx.states[slot] != SlotState::Free
                        && forall|s: int|
                        0 <= s < ctx.shape.max_voices && s != slot ==> #[trigger] ctx.states[s]
                            == SlotState::Free) ==> heard == eval32(
                        e.fp,
                        FloatOp::Add(ZERO, voice_sample(ctx, rec as int, slot, port as int, i)),
                    )
                },
            }
        }),
{
    law_frames_are_interleaved(device, rendered(e, frames), frames as int, c, i);
    let ctx = e.back->ctx;
    if let Some(SinkSrc::Voice(rec, port)) = e.back->sink[c] {
        let all_free = forall|s: int|
            0 <= s < ctx.shape.max_voices ==> #[trigger] ctx.states[s] == SlotState::Free;
        let alone = 0 <= slot < ctx.shape.max_voices && ctx.states[slot] != SlotState::Free
            && forall|s: int|
            0 <= s < ctx.shape.max_voices && s != slot ==> #[trigger] ctx.states[s]
                == SlotState::Free;
        if all_free {
            law_no_voice_no_sound(e.fp, ctx, rec as int, port as int, ctx.shape.max_voices);
        }
        if alone {
            law_single_voice_is_heard(e.fp, ctx, rec as int, port as int, slot, i);
        }
    }
}

/// A fresh engine with a voice source has sixteen free voices, the first of which is claimed first,
/// blocks as long as the capacity, and room for each output of the source.
pub proof fn law_sixteen_voices_are_free<M: ModuleType, S: SourceType>(
    registry: Registry<M, S>,
    nodes: Seq<Node>,
    r: Resolved,
    source: usize,
    capacity: usize,
    back: BackView<M, S::Module>,
    slot: int,
)
    requires
        poly_of(registry, nodes, r, source, capacity, back),
        0 <= slot < 16,
    ensures
        ({
            let ctx = back->ctx;
            &&& back is Poly
            &&& ctx.shape.max_voices == 16
            &&& ctx.shape.block_size == capacity
            &&& ctx.states.len() == 16
            &&& ctx.states[slot] == SlotState::Free
            &&& ctx.free.len() == 16
            &&& ctx.free[slot] == 15 - slot
            &&& ctx.free.last() == 0
        }),
{
}

/// A block of a patch without voices runs every record's module, at the sample rate and from the time at
/// which the block starts, on what the producers put out in the block: afterwards the record holds the
/// state that its module left, for the next block, and the outputs that it put out.
pub proof fn law_mono_block_runs_its_modules<
    M: ModuleType,
    P: PolyphonicModule,
    F: Fn(FloatOp) -> u64,
>(before: EngineView<M, P, F>, after: BackView<M, P>, frames: usize, i: int, port: int)
    requires
        mono_block(before, after, frames),
        frames <= before.capacity,
        before.back is Mono,
        plannable(before.capacity as int, before.back->specs),
        before.back->bytes.len() == mono_len(before.capacity as int, before.back->specs),
        holds(
            before.back->bytes,
            mono_recs(before.capacity as int, before.back->specs),
            before.capacity as int,
            mono_term(before.capacity as int, before.back->specs),
        ),
        0 <= i < before.back->specs.len(),
        0 <= port < before.back->specs[i].num_outputs,
        mono_recs(before.capacity as int, before.back->specs)[i].active(before.back->bytes),
    ensures
        ({
            let specs = before.back->specs;
            let cap = before.capacity as int;
            let recs = mono_recs(cap, specs);
            let tick = TickCtx {
                frames,
                block_size: before.capacity,
                sample_rate: before.sample_rate,
                time: start_time(before.fp, before.elapsed, before.sample_rate),
            };
            let out = made_of(before.back->bytes, recs, before.back->Mono_fns, tick, i);
            &&& after is Mono
            &&& after->specs == specs
            &&& after->Mono_fns == before.back->Mono_fns
            &&& after->fed == before.back->fed
            &&& out.state.len() == specs[i].state@.len() ==> after->bytes.subrange(
                recs[i].state_off(),
                recs[i].state_off() + recs[i].state_len,
            ) == out.state
            &&& port < out.outputs.len() && out.outputs[port].len() == frames ==> words(
                after->bytes,
                port_off(mono_start(cap), cap, specs, i, port),
                frames as int,
            ) == out.outputs[port]
        }),
{
    let specs = before.back->specs;
    let cap = before.capacity as int;
    lemma_mono_schedule(cap, specs);
    law_records_run_their_modules(
        before.back->bytes,
        mono_recs(cap, specs),
        cap,
        mono_start(cap),
        mono_term(cap, specs),
        before.back->Mono_fns,
        tick_of(
            before.capacity,
            frames,
            before.sample_rate,
            start_time(before.fp, before.elapsed, before.sample_rate),
        ),
        i,
        port,
    );
}

/// A block of a patch with voices first lets the source play, at the time at which the block starts, and
/// then runs the plan on what the source left: what is heard afterwards is the walk of that.
pub proof fn law_poly_block_plays_then_walks<
    M: ModuleType,
    P: PolyphonicModule,
    F: Fn(FloatOp) -> u64,
>(before: EngineView<M, P, F>, after: BackView<M, P>, frames: usize)
    requires
        poly_block(before, after, frames),
        before.back is Poly,
    ensures
        after is Poly,
        after->sink == before.back->sink,
        exists|start: SourceView, played: SourceView, tail: Tail| #[trigger]
            P::plays((before.back->source, start), (after->source, played), tail) && start.frames
                == frames && start.sample_rate == before.sample_rate && start.time == start_time(
                before.fp,
                before.elapsed,
                before.sample_rate,
            ) && start.bytes == before.back->ctx.bytes && start.states == before.back->ctx.states
                && start.free == before.back->ctx.free && start.shape == before.back->ctx.shape
                && start.templates == before.back->ctx.templates && same_setting(played, start)
                && after->ctx == walked(played, before.back->Poly_fns),
{
    let start = begun(
        before.fp,
        before.back->ctx,
        frames,
        before.sample_rate,
        before.elapsed,
    );
    let (played, tail) = choose|played: SourceView, tail: Tail| #[trigger]
        P::plays((before.back->source, start), (after->source, played), tail) && same_setting(
            played,
            start,
        ) && after->ctx == walked(played, before.back->Poly_fns);
    assert(P::plays((before.back->source, start), (after->source, played), tail));
}

} // verus!
