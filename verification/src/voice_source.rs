//! What a voice source works with: voice allocation and per-voice source-output buffers.

use vstd::prelude::*;
use crate::bytes::{put_bytes, put_words};
use crate::plan::tick_of;
use crate::processing::{ProcessFn, Tail};
use crate::slots::{SlotManager, SlotState, SlotsView, in_order, reapable, reaped};
use crate::voice_layout::{VoicedShape, silenced, skips_set};
use crate::voiced_plan::{VoicedPlan, all_runnable, kept_alive, scheduled};
use crate::walk::after_walk;

verus! {

/// A voice handle = a plan slot index (opaque to modules).
#[derive(Debug, Clone, Copy, PartialEq, Eq, Structural)]
pub struct VoiceId(pub usize);

/// What a [`PolyphonicModule`]'s `process` gets each block: timing, voice allocation, and
/// per-voice source-output buffers. The source drives allocation; the engine owns the slots.
/// `sample_rate` and `time` are the bit patterns of a single-precision and a double-precision
/// number.
pub struct SourceCtx {
    pub frames: usize,
    pub sample_rate: u32,
    pub time: u64,
    plan: VoicedPlan,
    slots: SlotManager,
    /// Fresh initial state for each voice record (re-stamped on spawn).
    template_states: Vec<Vec<u8>>,
}

/// The contents of a [`SourceCtx`].
#[verifier::ext_equal]
pub struct SourceView {
    pub frames: usize,
    pub sample_rate: u32,
    pub time: u64,
    /// The plan buffer.
    pub bytes: Seq<u8>,
    /// What the plan was laid out from.
    pub shape: VoicedShape,
    /// What each slot is doing.
    pub states: Seq<SlotState>,
    /// The free slots; the last one is the next to be claimed.
    pub free: Seq<usize>,
    /// Fresh initial state for each voice record.
    pub templates: Seq<Seq<u8>>,
}

/// The bytes of a list of states.
pub open spec fn state_views(states: Seq<Vec<u8>>) -> Seq<Seq<u8>> {
    Seq::new(states.len(), |i: int| states[i]@)
}

/// The buffer with the first `n` records of voice `slot` back at their initial states.
pub open spec fn respawned(
    b: Seq<u8>,
    shape: VoicedShape,
    slot: int,
    templates: Seq<Seq<u8>>,
    n: int,
) -> Seq<u8>
    decreases n,
{
    if n <= 0 {
        b
    } else {
        put_bytes(
            respawned(b, shape, slot, templates, n - 1),
            shape.voice_rec(n - 1, slot).state_off(),
            templates[n - 1],
        )
    }
}

/// The next free voice is claimed: its records are back at their initial states, its source
/// outputs are silent, and the walk runs it.
pub open spec fn claimed(c: SourceView) -> SourceView {
    let slot = c.free.last() as int;
    let fresh = respawned(c.bytes, c.shape, slot, c.templates, c.shape.voice.len() as int);
    let quiet = silenced(fresh, c.shape, slot, c.frames as int, c.shape.num_source_outputs);
    SourceView {
        bytes: skips_set(quiet, c.shape, slot, true, c.shape.voice.len() as int),
        states: c.states.update(slot, SlotState::Held),
        free: c.free.drop_last(),
        ..c
    }
}

/// A held voice is marked released.
pub open spec fn let_go(c: SourceView, voice: VoiceId) -> SourceView {
    SourceView {
        states: if c.states[voice.0 as int] == SlotState::Held {
            c.states.update(voice.0 as int, SlotState::Released)
        } else {
            c.states
        },
        ..c
    }
}

/// A source-output buffer of a voice is overwritten.
pub open spec fn sent(c: SourceView, voice: VoiceId, port: int, samples: Seq<u32>) -> SourceView {
    SourceView {
        bytes: put_words(c.bytes, c.shape.source_off(voice.0 as int, port), samples),
        ..c
    }
}

/// A source-output buffer of a voice holds one value for the whole block.
pub open spec fn steady(c: SourceView, voice: VoiceId, port: int, value: u32) -> SourceView {
    sent(c, voice, port, Seq::new(c.frames as nat, |i: int| value))
}

impl View for SourceCtx {
    type V = SourceView;

    closed spec fn view(&self) -> SourceView {
        SourceView {
            frames: self.frames,
            sample_rate: self.sample_rate,
            time: self.time,
            bytes: self.plan.bytes(),
            shape: self.plan.shape(),
            states: self.slots.states(),
            free: self.slots.free(),
            templates: state_views(self.template_states@),
        }
    }
}

/// The buffer with the skip words of the first `n` of these slots set to jumps.
pub open spec fn stopped(b: Seq<u8>, shape: VoicedShape, slots: Seq<usize>, n: int) -> Seq<u8>
    decreases n,
{
    if n <= 0 {
        b
    } else {
        skips_set(
            stopped(b, shape, slots, n - 1),
            shape,
            slots[n - 1] as int,
            false,
            shape.voice.len() as int,
        )
    }
}

/// Which slots have a record that is still producing output in this block.
pub open spec fn alive_slots<P: ProcessFn>(c: SourceView, fns: Seq<P>) -> Seq<bool> {
    Seq::new(
        c.states.len(),
        |k: int|
            kept_alive(
                c.bytes,
                c.shape,
                fns,
                tick_of(c.shape.block_size as usize, c.frames, c.sample_rate, c.time),
                k,
                c.shape.num_recs(),
            ),
    )
}

/// The plan is walked once; then the released voices that have gone quiet are freed.
pub open spec fn walked<P: ProcessFn>(c: SourceView, fns: Seq<P>) -> SourceView {
    let tick = tick_of(c.shape.block_size as usize, c.frames, c.sample_rate, c.time);
    let run = after_walk(c.bytes, c.shape.recs(), fns, tick, c.shape.num_recs());
    let alive = alive_slots(c, fns);
    let freed = reapable(c.states, alive, c.states.len() as int);
    SourceView {
        bytes: stopped(run, c.shape, freed, freed.len() as int),
        states: reaped(c.states, alive),
        free: c.free + freed,
        ..c
    }
}

/// Two contexts differ in the voices and their buffers only.
pub open spec fn same_setting(a: SourceView, b: SourceView) -> bool {
    &&& a.shape == b.shape
    &&& a.templates == b.templates
    &&& a.frames == b.frames
    &&& a.sample_rate == b.sample_rate
    &&& a.time == b.time
}

/// The slots are those of the plan, and there is an initial state for every voice record.
pub open spec fn consistent(c: SourceView) -> bool {
    &&& c.shape.plannable()
    &&& c.frames <= c.shape.block_size
    &&& c.states.len() == c.shape.max_voices
    &&& c.templates.len() == c.shape.voice.len()
    &&& forall|m: int|
        0 <= m < c.shape.voice.len() ==> (#[trigger] c.templates[m]).len()
            == c.shape.voice[m].state@.len()
}

impl SourceCtx {
    /// Plan and slots are in order, and the walk runs exactly the slots that hold a voice.
    pub closed spec fn wf(&self) -> bool {
        &&& self.plan.wf()
        &&& self.slots.wf()
        &&& consistent(self@)
        &&& self.plan.enabled().len() == self.slots.states().len()
        &&& forall|s: int|
            0 <= s < self.slots.states().len() ==> #[trigger] self.plan.enabled()[s] == (
            self.slots.states()[s] != SlotState::Free)
    }

    /// What a well-formed context promises: its free list holds each free slot once, and a slot is
    /// run by the walk if and only if it is not free.
    pub proof fn lemma_wf(&self)
        requires
            self.wf(),
        ensures
            consistent(self@),
            in_order(SlotsView { states: self@.states, free: self@.free }),
            scheduled(
                self@.bytes,
                self@.shape,
                Seq::new(self@.states.len(), |s: int| self@.states[s] != SlotState::Free),
            ),
    {
        self.plan.lemma_wf();
        assert(self.plan.enabled() =~= Seq::new(
            self@.states.len(),
            |s: int| self@.states[s] != SlotState::Free,
        ));
    }

    /// A context over a freshly laid-out plan, before the first block.
    pub fn new(plan: VoicedPlan, slots: SlotManager, template_states: Vec<Vec<u8>>) -> (ctx:
        SourceCtx)
        requires
            plan.wf(),
            slots.wf(),
            slots.states().len() == plan.shape().max_voices,
            plan.enabled().len() == slots.states().len(),
            forall|s: int|
                0 <= s < slots.states().len() ==> #[trigger] plan.enabled()[s] == (slots.states()[s]
                    != SlotState::Free),
            template_states@.len() == plan.shape().voice.len(),
            forall|m: int|
                0 <= m < template_states@.len() ==> (#[trigger] template_states@[m])@.len()
                    == plan.shape().voice[m].state@.len(),
            plan.shape().plannable(),
        ensures
            ctx.wf(),
            ctx@ == (SourceView {
                frames: 0,
                sample_rate: 0,
                time: 0,
                bytes: plan.bytes(),
                shape: plan.shape(),
                states: slots.states(),
                free: slots.free(),
                templates: state_views(template_states@),
            }),
    {
        SourceCtx { frames: 0, sample_rate: 0, time: 0, plan, slots, template_states }
    }

    /// Turns to the next block.
    pub fn begin(&mut self, frames: usize, sample_rate: u32, time: u64)
        requires
            old(self).wf(),
            frames <= old(self)@.shape.block_size,
        ensures
            final(self).wf(),
            final(self)@ == (SourceView { frames, sample_rate, time, ..old(self)@ }),
    {
        self.frames = frames;
        self.sample_rate = sample_rate;
        self.time = time;
    }

    /// Claim a free voice: re-inits its slot state, clears its source outputs, enables it.
    /// `None` when every slot is in use (the engine grows the plan off-RT; retry next block).
    pub fn allocate(&mut self) -> (voice: Option<VoiceId>)
        requires
            old(self).wf(),
        ensures
            final(self).wf(),
            voice is None <==> old(self)@.free.len() == 0,
            voice is None <==> forall|s: int|
                0 <= s < old(self)@.states.len() ==> #[trigger] old(self)@.states[s]
                    != SlotState::Free,
            match voice {
                Some(v) => {
                    &&& v.0 == old(self)@.free.last()
                    &&& v.0 < old(self)@.shape.max_voices
                    &&& old(self)@.states[v.0 as int] == SlotState::Free
                    &&& final(self)@ == claimed(old(self)@)
                },
                None => final(self)@ == old(self)@,
            },
    {
        let ghost before = self@;
        match self.slots.claim() {
            None => None,
            Some(slot) => {
                let ghost shape = self.plan.shape();
                let ghost templates = state_views(self.template_states@);
                let ghost enabled = self.plan.enabled();
                let mut rec: usize = 0;
                while rec < self.template_states.len()
                    invariant
                        rec <= self.template_states.len(),
                        self.plan.wf(),
                        self.plan.shape() == shape,
                        self.plan.enabled() == enabled,
                        self.slots.wf(),
                        self.slots.states() == before.states.update(slot as int, SlotState::Held),
                        self.slots.free() == before.free.drop_last(),
                        self.frames == before.frames,
                        self.sample_rate == before.sample_rate,
                        self.time == before.time,
                        templates == state_views(self.template_states@),
                        templates == before.templates,
                        shape == before.shape,
                        consistent(before),
                        slot < shape.max_voices,
                        self.plan.bytes() == respawned(
                            before.bytes,
                            shape,
                            slot as int,
                            templates,
                            rec as int,
                        ),
                    decreases self.template_states.len() - rec,
                {
                    assert(templates[rec as int] == self.template_states@[rec as int]@);
                    assert(before.templates[rec as int].len() == shape.voice[rec as int].state@.len());
                    self.plan.set_voice_state(slot, rec, &self.template_states[rec]);
                    rec = rec + 1;
                }
                self.plan.clear_source_outputs(slot, self.frames);
                self.plan.set_slot_active(slot, true);
                assert(self@ =~= claimed(before));
                Some(VoiceId(slot))
            },
        }
    }

    /// Mark a voice released (note-off). The engine frees the slot once its records are `Done`.
    pub fn release(&mut self, voice: VoiceId)
        requires
            old(self).wf(),
            voice.0 < old(self)@.shape.max_voices,
        ensures
            final(self).wf(),
            final(self)@ == let_go(old(self)@, voice),
    {
        self.slots.release(voice.0);
        assert(self@ =~= let_go(old(self)@, voice));
    }

    /// Writes a voice's source-output buffer for `port` (e.g. pitch/gate/velocity).
    pub fn voice_output(&mut self, voice: VoiceId, port: usize, samples: &Vec<u32>)
        requires
            old(self).wf(),
            voice.0 < old(self)@.shape.max_voices,
            port < old(self)@.shape.num_source_outputs,
            samples.len() <= old(self)@.shape.block_size,
        ensures
            final(self).wf(),
            final(self)@ == sent(old(self)@, voice, port as int, samples@),
    {
        self.plan.source_output_mut(voice.0, port, samples);
    }

    /// Fills a voice's source-output buffer for `port` with one value.
    pub fn hold_output(&mut self, voice: VoiceId, port: usize, value: u32)
        requires
            old(self).wf(),
            voice.0 < old(self)@.shape.max_voices,
            port < old(self)@.shape.num_source_outputs,
        ensures
            final(self).wf(),
            final(self)@ == steady(old(self)@, voice, port as int, value),
    {
        let samples: Vec<u32> = vec![value;self.frames];
        assert(samples@ =~= Seq::new(self.frames as nat, |i: int| value));
        self.voice_output(voice, port, &samples);
    }

    /// The number of frames of this block.
    pub fn frames(&self) -> (n: usize)
        ensures
            n == self@.frames,
    {
        self.frames
    }

    /// The number of slots.
    pub fn max_voices(&self) -> (n: usize)
        requires
            self.wf(),
        ensures
            n == self@.shape.max_voices,
    {
        self.plan.max_voices()
    }

    /// Whether slot `slot` holds a voice.
    pub fn is_active(&self, slot: usize) -> (r: bool)
        requires
            self.wf(),
            slot < self@.shape.max_voices,
        ensures
            r == (self@.states[slot as int] != SlotState::Free),
    {
        self.slots.is_active(slot)
    }

    /// A shared record's output in this block.
    pub fn shared_output(&self, record: usize, port: usize) -> (buf: Vec<u32>)
        requires
            self.wf(),
            record < self@.shape.shared.len(),
            port < self@.shape.shared[record as int].num_outputs,
        ensures
            buf@ == self@.shape.shared_rec(record as int).output(
                self@.bytes,
                port as int,
                self@.shape.block_size,
                self@.frames as int,
            ),
    {
        self.plan.shared_output(record, port, self.frames)
    }

    /// A per-voice record's output in this block.
    pub fn record_output(&self, slot: usize, record: usize, port: usize) -> (buf: Vec<u32>)
        requires
            self.wf(),
            slot < self@.shape.max_voices,
            record < self@.shape.voice.len(),
            port < self@.shape.voice[record as int].num_outputs,
        ensures
            buf@ == self@.shape.voice_rec(record as int, slot as int).output(
                self@.bytes,
                port as int,
                self@.shape.block_size,
                self@.frames as int,
            ),
    {
        self.plan.voice_output(slot, record, port, self.frames)
    }

    /// Walks the plan once, then frees the released voices whose records all reported
    /// `Tail::Done`. `slot_alive` says afterwards which slots are still producing output.
    pub fn walk<P: ProcessFn>(&mut self, fns: &[P], slot_alive: &mut Vec<bool>)
        requires
            old(self).wf(),
            old(slot_alive).len() == old(self)@.shape.max_voices,
            all_runnable(fns@, old(self)@.shape),
        ensures
            final(self).wf(),
            final(self)@ == walked(old(self)@, fns@),
            final(slot_alive)@ == alive_slots(old(self)@, fns@),
    {
        let ghost before = self@;
        self.plan.run(fns, self.sample_rate, self.time, self.frames, slot_alive);
        assert(slot_alive@ =~= alive_slots(before, fns@));
        let ghost run = self.plan.bytes();
        let ghost enabled = self.plan.enabled();
        let freed = self.slots.reap(slot_alive);
        proof {
            lemma_reapable(before.states, slot_alive@, before.states.len() as int);
        }
        let mut k: usize = 0;
        while k < freed.len()
            invariant
                k <= freed.len(),
                consistent(before),
                freed@ == reapable(before.states, slot_alive@, before.states.len() as int),
                forall|i: int|
                    0 <= i < freed@.len() ==> #[trigger] freed@[i] < before.shape.max_voices,
                self.plan.wf(),
                self.plan.shape() == before.shape,
                self.slots.wf(),
                self.slots.states() == reaped(before.states, slot_alive@),
                self.slots.free() == before.free + freed@,
                self.frames == before.frames,
                self.sample_rate == before.sample_rate,
                self.time == before.time,
                state_views(self.template_states@) == before.templates,
                enabled.len() == before.states.len(),
                self.plan.enabled().len() == enabled.len(),
                forall|s: int|
                    0 <= s < enabled.len() ==> #[trigger] self.plan.enabled()[s] == (enabled[s]
                        && !freed@.take(k as int).contains(s as usize)),
                self.plan.bytes() == stopped(run, before.shape, freed@, k as int),
            decreases freed.len() - k,
        {
            let ghost was = self.plan.enabled();
            self.plan.set_slot_active(freed[k], false);
            proof {
                let now = freed@.take(k + 1);
                assert(now =~= freed@.take(k as int).push(freed@[k as int]));
                assert forall|s: int| 0 <= s < enabled.len() implies #[trigger] self.plan.enabled()[s]
                    == (enabled[s] && !now.contains(s as usize)) by {
                    assert(was[s] == (enabled[s] && !freed@.take(k as int).contains(s as usize)));
                    if s == freed@[k as int] {
                        assert(now[k as int] == s as usize);
                    } else if now.contains(s as usize) {
                        let i = choose|i: int| 0 <= i < now.len() && now[i] == s as usize;
                        assert(freed@.take(k as int)[i] == s as usize);
                    } else if freed@.take(k as int).contains(s as usize) {
                        let i = choose|i: int|
                            0 <= i < k && freed@.take(k as int)[i] == s as usize;
                        assert(now[i] == s as usize);
                    }
                }
            }
            k = k + 1;
        }
        proof {
            assert(freed@.take(k as int) =~= freed@);
            assert forall|s: int|
                0 <= s < self.slots.states().len() implies #[trigger] self.plan.enabled()[s] == (
            self.slots.states()[s] != SlotState::Free) by {
                assert(enabled[s] == (before.states[s] != SlotState::Free));
            }
            assert(self@ =~= walked(before, fns@));
        }
    }
}

/// The reaped slots are the released ones that have gone quiet.
proof fn lemma_reapable(states: Seq<SlotState>, alive: Seq<bool>, n: int)
    requires
        0 <= n <= states.len() <= usize::MAX,
    ensures
        forall|i: int|
            0 <= i < reapable(states, alive, n).len() ==> #[trigger] reapable(states, alive, n)[i] < n,
        forall|s: int|
            0 <= s < n ==> #[trigger] reapable(states, alive, n).contains(s as usize) == (states[s]
                == SlotState::Released && !alive[s]),
    decreases n,
{
    if n > 0 {
        lemma_reapable(states, alive, n - 1);
        let less = reapable(states, alive, n - 1);
        let all = reapable(states, alive, n);
        assert forall|s: int| 0 <= s < n implies #[trigger] all.contains(s as usize) == (states[s]
            == SlotState::Released && !alive[s]) by {
            if s < n - 1 {
                assert(less.contains(s as usize) == (states[s] == SlotState::Released && !alive[s]));
                if less.contains(s as usize) {
                    let i = choose|i: int| 0 <= i < less.len() && less[i] == s as usize;
                    assert(all[i] == s as usize);
                }
                if all.contains(s as usize) {
                    let i = choose|i: int| 0 <= i < all.len() && all[i] == s as usize;
                    assert(less[i] == s as usize);
                }
            } else if all.len() > less.len() {
                assert(all[less.len() as int] == s as usize);
            } else if all.contains(s as usize) {
                let i = choose|i: int| 0 <= i < all.len() && all[i] == s as usize;
                assert(less[i] == s as usize);
            }
        }
    }
}

/// A running voice source instance (e.g. a MIDI keyboard): a single shared object holding
/// resources, called once per block.
pub trait PolyphonicModule: Sized {
    /// The source can drive this many slots with this many outputs each.
    open spec fn suits(&self, max_voices: int, num_outputs: int) -> bool {
        true
    }

    /// A block may take the source and its context from `before` to `after`.
    open spec fn plays(before: (Self, SourceView), after: (Self, SourceView), tail: Tail) -> bool {
        true
    }

    fn process(&mut self, ctx: &mut SourceCtx) -> (tail: Tail)
        requires
            old(ctx).wf(),
            old(self).suits(old(ctx)@.shape.max_voices, old(ctx)@.shape.num_source_outputs),
        ensures
            final(ctx).wf(),
            final(ctx)@.shape == old(ctx)@.shape,
            final(ctx)@.templates == old(ctx)@.templates,
            final(ctx)@.frames == old(ctx)@.frames,
            final(ctx)@.sample_rate == old(ctx)@.sample_rate,
            final(ctx)@.time == old(ctx)@.time,
            final(self).suits(old(ctx)@.shape.max_voices, old(ctx)@.shape.num_source_outputs),
            Self::plays((*old(self), old(ctx)@), (*final(self), final(ctx)@), tail),
    ;
}

} // verus!
