//! The voices that a keyboard holds, one per key.

use vstd::prelude::*;
use crate::bytes::{agree, lemma_put_words, lemma_words_agree, put_words, words};
use crate::float::{FloatOp, ONE, ZERO, apply32, eval32, is_float_unit};
use crate::layout::lemma_bufs_len;
use crate::numbers::{Arithmetic, computes, finite, law_constants_are_their_numbers, lemma_round_exact, near, size, stands_for, takes_powers, value};
use crate::slots::SlotState;
use crate::voice_layout::{VoicedShape, silenced, skips_set};
use crate::voice_source::{SourceCtx, SourceView, VoiceId, claimed, let_go, respawned, same_setting, steady};

verus! {

/// The output port for the pitch in Hz.
pub const PITCH: usize = 0;

/// The output port that says whether the key is down.
pub const GATE: usize = 1;

/// The output port for the velocity.
pub const VELOCITY: usize = 2;

/// A key that is held, and the voice that plays it.
#[derive(Debug, Clone, Copy, PartialEq, Eq, Structural)]
pub struct HeldVoice {
    pub key: u8,
    pub voice: VoiceId,
    /// Captured at note-on, so that a held note keeps its pitch.
    pub note: u8,
    /// The bit pattern of a single-precision number.
    pub velocity: u32,
}

/// The held voices and the context that they live in.
#[verifier::ext_equal]
pub struct Playing {
    pub held: Seq<HeldVoice>,
    pub ctx: SourceView,
}

/// Index of the first entry for `key`, or the number of entries.
pub open spec fn key_index(held: Seq<HeldVoice>, key: u8) -> int
    decreases held.len(),
{
    if held.len() == 0 {
        0
    } else if held[0].key == key {
        0
    } else {
        1 + key_index(held.drop_first(), key)
    }
}

/// Entry `i` ends: its gate closes, its voice is released, and it is held no longer.
pub open spec fn ended(p: Playing, i: int) -> Playing {
    let voice = p.held[i].voice;
    Playing {
        held: p.held.remove(i),
        ctx: let_go(steady(p.ctx, voice, GATE as int, ZERO), voice),
    }
}

/// The key comes up: what it holds ends.
pub open spec fn lifted(p: Playing, key: u8) -> Playing {
    let i = key_index(p.held, key);
    if i < p.held.len() {
        ended(p, i)
    } else {
        p
    }
}

/// The key goes down: what it still holds ends first, and a free voice takes the note; with no
/// voice free the note is dropped.
pub open spec fn struck(p: Playing, key: u8, note: u8, velocity: u32) -> Playing {
    let q = lifted(p, key);
    if q.ctx.free.len() == 0 {
        q
    } else {
        Playing {
            held: q.held.push(
                HeldVoice { key, voice: VoiceId(q.ctx.free.last()), note, velocity },
            ),
            ctx: claimed(q.ctx),
        }
    }
}

/// The first `n` entries end, in order.
pub open spec fn all_ended(p: Playing, n: int) -> Playing
    decreases n,
{
    if n <= 0 {
        p
    } else {
        all_ended(ended(p, 0), n - 1)
    }
}

/// Frequency in Hz of a MIDI note number (A4 = note 69 = 440 Hz, equal temperament):
/// `440 * 2^((note - 69) / 12)`.
pub open spec fn pitch_of<F: Fn(FloatOp) -> u64>(fp: F, note: u8) -> u32 {
    let steps = eval32(fp, FloatOp::Sub(eval32(fp, FloatOp::U8ToF32(note)), NOTE_A4));
    let octaves = eval32(fp, FloatOp::Div(steps, STEPS_PER_OCTAVE));
    eval32(fp, FloatOp::Mul(HZ_A4, eval32(fp, FloatOp::Powf(TWO, octaves))))
}

/// 440 in single precision.
pub const HZ_A4: u32 = 0x43DC_0000;

/// 69 in single precision.
pub const NOTE_A4: u32 = 0x428A_0000;

/// 12 in single precision.
pub const STEPS_PER_OCTAVE: u32 = 0x4140_0000;

/// 2 in single precision.
pub const TWO: u32 = 0x4000_0000;

/// Convert a MIDI note number to frequency in Hz (A4 = note 69 = 440 Hz, equal temperament).
pub fn note_to_hz<F: Fn(FloatOp) -> u64>(note: u8, fp: &F) -> (hz: u32)
    requires
        is_float_unit(*fp),
    ensures
        hz == pitch_of(*fp, note),
{
    let number: u32 = apply32(fp, FloatOp::U8ToF32(note));
    let steps: u32 = apply32(fp, FloatOp::Sub(number, NOTE_A4));
    let octaves: u32 = apply32(fp, FloatOp::Div(steps, STEPS_PER_OCTAVE));
    let ratio: u32 = apply32(fp, FloatOp::Powf(TWO, octaves));
    apply32(fp, FloatOp::Mul(HZ_A4, ratio))
}

/// The context once the outputs of the first `n` held voices are refreshed.
pub open spec fn refreshed<F: Fn(FloatOp) -> u64>(
    fp: F,
    held: Seq<HeldVoice>,
    ctx: SourceView,
    velocity: bool,
    n: int,
) -> SourceView
    decreases n,
{
    if n <= 0 {
        ctx
    } else {
        let h = held[n - 1];
        let prev = refreshed(fp, held, ctx, velocity, n - 1);
        let open = steady(
            steady(prev, h.voice, PITCH as int, pitch_of(fp, h.note)),
            h.voice,
            GATE as int,
            ONE,
        );
        if velocity {
            steady(open, h.voice, VELOCITY as int, h.velocity)
        } else {
            open
        }
    }
}

/// Refreshing outputs changes buffers only.
pub proof fn lemma_refreshed_kept<F: Fn(FloatOp) -> u64>(
    fp: F,
    held: Seq<HeldVoice>,
    ctx: SourceView,
    velocity: bool,
    n: int,
)
    ensures
        same_setting(refreshed(fp, held, ctx, velocity, n), ctx),
        refreshed(fp, held, ctx, velocity, n).states == ctx.states,
        refreshed(fp, held, ctx, velocity, n).free == ctx.free,
    decreases n,
{
    if n > 0 {
        lemma_refreshed_kept(fp, held, ctx, velocity, n - 1);
    }
}

/// Every held voice is a slot.
pub open spec fn slots_exist(held: Seq<HeldVoice>, max_voices: int) -> bool {
    forall|i: int| 0 <= i < held.len() ==> (#[trigger] held[i]).voice.0 < max_voices
}

/// No key is held twice.
pub open spec fn keys_once(held: Seq<HeldVoice>) -> bool {
    forall|i: int, j: int|
        0 <= i < j < held.len() ==> (#[trigger] held[i]).key != (#[trigger] held[j]).key
}

/// The first entry for a key is where it is first found.
pub proof fn lemma_key_index(held: Seq<HeldVoice>, key: u8, i: int)
    requires
        0 <= i <= held.len(),
        forall|k: int| 0 <= k < i ==> (#[trigger] held[k]).key != key,
        i < held.len() ==> held[i].key == key,
    ensures
        key_index(held, key) == i,
    decreases held.len(),
{
    if held.len() > 0 && i > 0 {
        let rest = held.drop_first();
        assert(held[0].key != key);
        assert forall|k: int| 0 <= k < i - 1 implies (#[trigger] rest[k]).key != key by {
            assert(rest[k] == held[k + 1]);
        }
        lemma_key_index(rest, key, i - 1);
    }
}

/// Where a key is first found it stands.
pub proof fn lemma_key_found(held: Seq<HeldVoice>, key: u8)
    ensures
        0 <= key_index(held, key) <= held.len(),
        key_index(held, key) < held.len() ==> held[key_index(held, key)].key == key,
        forall|k: int| 0 <= k < key_index(held, key) ==> (#[trigger] held[k]).key != key,
    decreases held.len(),
{
    if held.len() > 0 && held[0].key != key {
        let rest = held.drop_first();
        lemma_key_found(rest, key);
        assert forall|k: int| 0 <= k < key_index(held, key) implies (#[trigger] held[k]).key
            != key by {
            if k > 0 {
                assert(rest[k - 1] == held[k]);
            }
        }
    }
}

/// The voices held by a keyboard's keys.
pub struct HeldVoices {
    entries: Vec<HeldVoice>,
}

impl View for HeldVoices {
    type V = Seq<HeldVoice>;

    closed spec fn view(&self) -> Seq<HeldVoice> {
        self.entries@
    }
}

impl HeldVoices {
    /// No key is held.
    pub fn new() -> (held: HeldVoices)
        ensures
            held@ == Seq::<HeldVoice>::empty(),
    {
        HeldVoices { entries: Vec::new() }
    }

    /// Whether no key is held.
    pub fn is_empty(&self) -> (r: bool)
        ensures
            r == (self@.len() == 0),
    {
        self.entries.len() == 0
    }

    /// Ends entry `i`.
    fn end(&mut self, i: usize, ctx: &mut SourceCtx)
        requires
            i < old(self)@.len(),
            old(ctx).wf(),
            slots_exist(old(self)@, old(ctx)@.shape.max_voices),
            GATE < old(ctx)@.shape.num_source_outputs,
        ensures
            final(ctx).wf(),
            (Playing { held: final(self)@, ctx: final(ctx)@ }) == ended(
                Playing { held: old(self)@, ctx: old(ctx)@ },
                i as int,
            ),
            slots_exist(final(self)@, old(ctx)@.shape.max_voices),
    {
        let ghost before = self@;
        let old_voice = self.entries.remove(i);
        assert(before[i as int] == old_voice);
        ctx.hold_output(old_voice.voice, GATE, ZERO);
        ctx.release(old_voice.voice);
        proof {
            assert forall|k: int| 0 <= k < self@.len() implies (#[trigger] self@[k]).voice.0
                < ctx@.shape.max_voices by {
                if k < i {
                    assert(self@[k] == before[k]);
                } else {
                    assert(self@[k] == before[k + 1]);
                }
            }
        }
    }

    /// The key comes up.
    pub fn lift(&mut self, key: u8, ctx: &mut SourceCtx)
        requires
            old(ctx).wf(),
            slots_exist(old(self)@, old(ctx)@.shape.max_voices),
            GATE < old(ctx)@.shape.num_source_outputs,
        ensures
            final(ctx).wf(),
            (Playing { held: final(self)@, ctx: final(ctx)@ }) == lifted(
                Playing { held: old(self)@, ctx: old(ctx)@ },
                key,
            ),
            slots_exist(final(self)@, old(ctx)@.shape.max_voices),
    {
        let mut i: usize = 0;
        while i < self.entries.len()
            invariant
                i <= self.entries.len(),
                *self == *old(self),
                *ctx == *old(ctx),
                ctx.wf(),
                slots_exist(self@, ctx@.shape.max_voices),
                GATE < ctx@.shape.num_source_outputs,
                forall|k: int| 0 <= k < i ==> (#[trigger] self@[k]).key != key,
            decreases self.entries.len() - i,
        {
            if self.entries[i].key == key {
                proof {
                    lemma_key_index(self@, key, i as int);
                }
                self.end(i, ctx);
                return;
            }
            i = i + 1;
        }
        proof {
            lemma_key_index(self@, key, i as int);
        }
    }

    /// The key goes down.
    pub fn strike(&mut self, key: u8, note: u8, velocity: u32, ctx: &mut SourceCtx)
        requires
            old(ctx).wf(),
            slots_exist(old(self)@, old(ctx)@.shape.max_voices),
            GATE < old(ctx)@.shape.num_source_outputs,
        ensures
            final(ctx).wf(),
            (Playing { held: final(self)@, ctx: final(ctx)@ }) == struck(
                Playing { held: old(self)@, ctx: old(ctx)@ },
                key,
                note,
                velocity,
            ),
            slots_exist(final(self)@, old(ctx)@.shape.max_voices),
            final(ctx)@.shape == old(ctx)@.shape,
    {
        // Re-triggering a held key: release the old voice first.
        self.lift(key, ctx);
        match ctx.allocate() {
            Some(voice) => {
                self.entries.push(HeldVoice { key, voice, note, velocity });
            },
            None => {},
        }
    }

    /// Ends everything that is held.
    pub fn end_all(&mut self, ctx: &mut SourceCtx)
        requires
            old(ctx).wf(),
            slots_exist(old(self)@, old(ctx)@.shape.max_voices),
            GATE < old(ctx)@.shape.num_source_outputs,
        ensures
            final(ctx).wf(),
            (Playing { held: final(self)@, ctx: final(ctx)@ }) == all_ended(
                Playing { held: old(self)@, ctx: old(ctx)@ },
                old(self)@.len() as int,
            ),
            final(self)@.len() == 0,
            final(ctx)@.shape == old(ctx)@.shape,
    {
        let ghost goal = all_ended(Playing { held: self@, ctx: ctx@ }, self@.len() as int);
        while self.entries.len() > 0
            invariant
                ctx.wf(),
                slots_exist(self@, ctx@.shape.max_voices),
                GATE < ctx@.shape.num_source_outputs,
                ctx@.shape == old(ctx)@.shape,
                all_ended(Playing { held: self@, ctx: ctx@ }, self@.len() as int) == goal,
            decreases self.entries.len(),
        {
            self.end(0, ctx);
        }
    }

    /// Refreshes the outputs of every held voice (held buffers persist, but writing keeps them
    /// correct across plan rebuilds and is cheap).
    pub fn refresh<F: Fn(FloatOp) -> u64>(&self, fp: &F, velocity: bool, ctx: &mut SourceCtx)
        requires
            is_float_unit(*fp),
            old(ctx).wf(),
            slots_exist(self@, old(ctx)@.shape.max_voices),
            GATE < old(ctx)@.shape.num_source_outputs,
            velocity ==> VELOCITY < old(ctx)@.shape.num_source_outputs,
        ensures
            final(ctx).wf(),
            final(ctx)@ == refreshed(*fp, self@, old(ctx)@, velocity, self@.len() as int),
            final(ctx)@.shape == old(ctx)@.shape,
    {
        let mut i: usize = 0;
        while i < self.entries.len()
            invariant
                i <= self.entries.len(),
                is_float_unit(*fp),
                ctx.wf(),
                slots_exist(self@, ctx@.shape.max_voices),
                GATE < ctx@.shape.num_source_outputs,
                velocity ==> VELOCITY < ctx@.shape.num_source_outputs,
                ctx@.shape == old(ctx)@.shape,
                ctx@ == refreshed(*fp, self@, old(ctx)@, velocity, i as int),
            decreases self.entries.len() - i,
        {
            let h = self.entries[i];
            assert(h == self@[i as int]);
            let pitch: u32 = note_to_hz(h.note, fp);
            ctx.hold_output(h.voice, PITCH, pitch);
            ctx.hold_output(h.voice, GATE, ONE);
            if velocity {
                ctx.hold_output(h.voice, VELOCITY, h.velocity);
            }
            i = i + 1;
        }
    }
}

/// Taking an entry away keeps the others, and keeps keys apart.
proof fn lemma_without(held: Seq<HeldVoice>, i: int)
    requires
        0 <= i < held.len(),
        keys_once(held),
    ensures
        keys_once(held.remove(i)),
        forall|k: int|
            0 <= k < held.remove(i).len() ==> (#[trigger] held.remove(i)[k]).key != held[i].key,
{
    let rest = held.remove(i);
    assert forall|k: int| 0 <= k < rest.len() implies #[trigger] rest[k] == held[if k < i {
        k
    } else {
        k + 1
    }] by {}
}

/// No key is ever held by two voices: neither a key that goes down nor one that comes up changes
/// that.
pub proof fn law_keys_are_held_once(p: Playing, key: u8, note: u8, velocity: u32)
    requires
        keys_once(p.held),
    ensures
        keys_once(lifted(p, key).held),
        keys_once(struck(p, key, note, velocity).held),
{
    lemma_key_found(p.held, key);
    let i = key_index(p.held, key);
    if i < p.held.len() {
        lemma_without(p.held, i);
    }
    let q = lifted(p, key);
    assert forall|k: int| 0 <= k < q.held.len() implies (#[trigger] q.held[k]).key != key by {
        if i == p.held.len() {
            assert(q.held[k] == p.held[k]);
        }
    }
}

/// Re-triggering a held key releases the old voice first: its gate closes, and it is held no
/// longer.
pub proof fn law_retrigger_releases_the_old_voice(p: Playing, key: u8, note: u8, velocity: u32)
    requires
        keys_once(p.held),
        slots_exist(p.held, p.ctx.states.len() as int),
        key_index(p.held, key) < p.held.len(),
        p.ctx.states[p.held[key_index(p.held, key)].voice.0 as int] == SlotState::Held,
        forall|k: int|
            0 <= k < p.ctx.free.len() ==> #[trigger] p.ctx.free[k] < p.ctx.states.len()
                && p.ctx.states[p.ctx.free[k] as int] == SlotState::Free,
    ensures
        ({
            let old_voice = p.held[key_index(p.held, key)].voice;
            let q = struck(p, key, note, velocity);
            &&& q.ctx.states[old_voice.0 as int] == SlotState::Released
            &&& forall|k: int|
                0 <= k < q.held.len() && (#[trigger] q.held[k]).key == key ==> q.held[k].note
                    == note && p.ctx.free.len() > 0 && q.held[k].voice.0 == p.ctx.free.last()
        }),
{
    lemma_key_found(p.held, key);
    let i = key_index(p.held, key);
    lemma_without(p.held, i);
    let old_voice = p.held[i].voice;
    let q = lifted(p, key);
    assert(old_voice.0 < p.ctx.states.len());
    assert(q.ctx.states == p.ctx.states.update(old_voice.0 as int, SlotState::Released));
    if p.ctx.free.len() > 0 {
        assert(p.ctx.states[p.ctx.free[p.ctx.free.len() - 1] as int] == SlotState::Free);
    }
    let r = struck(p, key, note, velocity);
    assert forall|k: int| 0 <= k < r.held.len() && (#[trigger] r.held[k]).key == key implies r.held[k].note
        == note && p.ctx.free.len() > 0 && r.held[k].voice.0 == p.ctx.free.last() by {
        if k < q.held.len() {
            assert(q.held[k] == p.held.remove(i)[k]);
        }
    }
}

/// Already-held notes keep their pitch: what another key holds stays held, with the same note and
/// by the same voice.
pub proof fn law_held_notes_keep_their_pitch(
    p: Playing,
    key: u8,
    note: u8,
    velocity: u32,
    other: int,
)
    requires
        0 <= other < p.held.len(),
        p.held[other].key != key,
    ensures
        lifted(p, key).held.contains(p.held[other]),
        struck(p, key, note, velocity).held.contains(p.held[other]),
{
    lemma_key_found(p.held, key);
    let i = key_index(p.held, key);
    let q = lifted(p, key);
    let at = if i < other {
        other - 1
    } else {
        other
    };
    if i < p.held.len() {
        assert(p.held[i].key == key);
        assert(q.held[at] == p.held[other]);
    } else {
        assert(q.held[other] == p.held[other]);
    }
    let j = choose|j: int| 0 <= j < q.held.len() && q.held[j] == p.held[other];
    let r = struck(p, key, note, velocity);
    assert(r.held[j] == p.held[other]);
}

/// Ending everything leaves nothing held, and no voice of what was held still sounding as held.
pub proof fn law_ending_all_releases_every_voice(p: Playing, n: int)
    requires
        n == p.held.len(),
        slots_exist(p.held, p.ctx.states.len() as int),
    ensures
        all_ended(p, n).held.len() == 0,
        all_ended(p, n).ctx.states.len() == p.ctx.states.len(),
        forall|s: int|
            0 <= s < p.ctx.states.len() && p.ctx.states[s] != SlotState::Held ==> #[trigger] all_ended(
                p,
                n,
            ).ctx.states[s] != SlotState::Held,
        forall|i: int|
            0 <= i < n ==> all_ended(p, n).ctx.states[(#[trigger] p.held[i]).voice.0 as int]
                != SlotState::Held,
    decreases n,
{
    if n > 0 {
        let q = ended(p, 0);
        assert(p.held[0].voice.0 < p.ctx.states.len());
        assert forall|k: int| 0 <= k < q.held.len() implies #[trigger] q.held[k] == p.held[k + 1]
            && q.held[k].voice.0 < q.ctx.states.len() by {
            assert(p.held[k + 1].voice.0 < p.ctx.states.len());
        }
        law_ending_all_releases_every_voice(q, n - 1);
        assert forall|i: int| 0 <= i < n implies all_ended(
            p,
            n,
        ).ctx.states[(#[trigger] p.held[i]).voice.0 as int] != SlotState::Held by {
            if i == 0 {
                assert(q.ctx.states[p.held[0].voice.0 as int] != SlotState::Held);
            } else {
                assert(q.held[i - 1] == p.held[i]);
            }
        }
        assert forall|s: int|
            0 <= s < p.ctx.states.len() && p.ctx.states[s]
                != SlotState::Held implies #[trigger] all_ended(p, n).ctx.states[s]
            != SlotState::Held by {
            assert(q.ctx.states[s] != SlotState::Held);
        }
    }
}

/// Every entry has a voice of its own, every such voice is held, and every free slot is free.
pub open spec fn voices_in_order(p: Playing) -> bool {
    &&& forall|i: int|
        0 <= i < p.held.len() ==> (#[trigger] p.held[i]).voice.0 < p.ctx.states.len()
            && p.ctx.states[p.held[i].voice.0 as int] == SlotState::Held
    &&& forall|i: int, j: int|
        0 <= i < j < p.held.len() ==> (#[trigger] p.held[i]).voice != (#[trigger] p.held[j]).voice
    &&& forall|k: int|
        0 <= k < p.ctx.free.len() ==> #[trigger] p.ctx.free[k] < p.ctx.states.len()
            && p.ctx.states[p.ctx.free[k] as int] == SlotState::Free
    &&& p.ctx.free.no_duplicates()
}

/// Every held key has a voice of its own, and keeps it: neither a key that goes down nor one that
/// comes up takes a voice that another key holds.
pub proof fn law_every_held_key_has_its_own_voice(p: Playing, key: u8, note: u8, velocity: u32)
    requires
        voices_in_order(p),
    ensures
        voices_in_order(lifted(p, key)),
        voices_in_order(struck(p, key, note, velocity)),
{
    lemma_key_found(p.held, key);
    let i = key_index(p.held, key);
    let q = lifted(p, key);
    if i < p.held.len() {
        let v = p.held[i].voice;
        assert(q.ctx.states == p.ctx.states.update(v.0 as int, SlotState::Released));
        assert forall|k: int| 0 <= k < q.held.len() implies (#[trigger] q.held[k]).voice.0
            < q.ctx.states.len() && q.ctx.states[q.held[k].voice.0 as int] == SlotState::Held by {
            let at = if k < i {
                k
            } else {
                k + 1
            };
            assert(q.held[k] == p.held[at]);
            assert(p.held[at].voice != v);
        }
        assert forall|a: int, b: int| 0 <= a < b < q.held.len() implies (#[trigger] q.held[a]).voice
            != (#[trigger] q.held[b]).voice by {
            let x = if a < i {
                a
            } else {
                a + 1
            };
            let y = if b < i {
                b
            } else {
                b + 1
            };
            assert(q.held[a] == p.held[x] && q.held[b] == p.held[y]);
        }
    }
    if q.ctx.free.len() > 0 {
        let r = struck(p, key, note, velocity);
        let last = q.ctx.free.len() - 1;
        let slot = q.ctx.free[last];
        assert(q.ctx.states[slot as int] == SlotState::Free);
        assert(r.ctx.states == q.ctx.states.update(slot as int, SlotState::Held));
        assert(r.ctx.free =~= q.ctx.free.drop_last());
        assert forall|k: int| 0 <= k < r.held.len() implies (#[trigger] r.held[k]).voice.0
            < r.ctx.states.len() && r.ctx.states[r.held[k].voice.0 as int] == SlotState::Held by {
            if k < q.held.len() {
                assert(r.held[k] == q.held[k]);
            }
        }
        assert forall|a: int, b: int| 0 <= a < b < r.held.len() implies (#[trigger] r.held[a]).voice
            != (#[trigger] r.held[b]).voice by {
            assert(r.held[a] == q.held[a]);
            if b < q.held.len() {
                assert(r.held[b] == q.held[b]);
            }
        }
        assert forall|k: int| 0 <= k < r.ctx.free.len() implies #[trigger] r.ctx.free[k]
            < r.ctx.states.len() && r.ctx.states[r.ctx.free[k] as int] == SlotState::Free by {
            assert(r.ctx.free[k] == q.ctx.free[k]);
        }
    }
}

/// What output `port` of a voice carries in this block.
pub open spec fn carries(c: SourceView, voice: VoiceId, port: int, value: u32) -> bool {
    words(c.bytes, c.shape.source_off(voice.0 as int, port), c.frames as int) == Seq::new(
        c.frames as nat,
        |i: int| value,
    )
}

/// A context that a source output of a slot can be written in.
pub open spec fn writable(c: SourceView, voice: VoiceId, port: int) -> bool {
    &&& c.shape.plannable()
    &&& c.bytes.len() == c.shape.len()
    &&& c.frames <= c.shape.block_size
    &&& voice.0 < c.shape.max_voices
    &&& 0 <= port < c.shape.num_source_outputs
}

/// Writing a source output writes it, and no other.
proof fn lemma_steady(
    c: SourceView,
    voice: VoiceId,
    port: int,
    value: u32,
    other: VoiceId,
    q: int,
    was: u32,
)
    requires
        writable(c, voice, port),
        writable(c, other, q),
    ensures
        steady(c, voice, port, value).bytes.len() == c.bytes.len(),
        carries(steady(c, voice, port, value), voice, port, value),
        (other != voice || q != port) && carries(c, other, q, was) ==> carries(
            steady(c, voice, port, value),
            other,
            q,
            was,
        ),
{
    let shape = c.shape;
    let bs = shape.block_size;
    let frames = c.frames as int;
    let d = steady(c, voice, port, value);
    let off = shape.source_off(voice.0 as int, port);
    let at = shape.source_off(other.0 as int, q);
    let samples = Seq::new(c.frames as nat, |i: int| value);
    shape.lemma_front();
    shape.lemma_term();
    shape.lemma_source_off(voice.0 as int, port);
    shape.lemma_source_off(other.0 as int, q);
    assert(d.bytes == put_words(c.bytes, off, samples));
    lemma_put_words(c.bytes, off, samples);
    if other != voice || q != port {
        if other.0 < voice.0 || other.0 == voice.0 && q < port {
            if other.0 < voice.0 {
                lemma_earlier_slot(shape, other.0 as int, voice.0 as int);
            } else {
                lemma_bufs_len(q + 1, port, bs);
            }
            assert(agree(c.bytes, d.bytes, 0, off));
            lemma_words_agree(c.bytes, d.bytes, 0, off, at, frames);
        } else {
            if voice.0 < other.0 {
                lemma_earlier_slot(shape, voice.0 as int, other.0 as int);
            } else {
                lemma_bufs_len(port + 1, q, bs);
            }
            let len = c.bytes.len() as int;
            assert(agree(c.bytes, d.bytes, off + 4 * frames, len));
            lemma_words_agree(c.bytes, d.bytes, off + 4 * frames, len, at, frames);
        }
    }
}

/// The source outputs of a slot lie before those of the next.
proof fn lemma_earlier_slot(shape: VoicedShape, s: int, t: int)
    requires
        shape.plannable(),
        0 <= s < t,
    ensures
        (s + 1) * shape.source_stride() <= t * shape.source_stride(),
{
    shape.lemma_front();
    let stride = shape.source_stride();
    assert((s + 1) * stride <= t * stride) by (nonlinear_arith)
        requires
            s < t,
            0 <= stride,
    ;
}

/// A key that comes up closes its voice's gate and releases the voice; the engine keeps the voice
/// alive through its tail.
pub proof fn law_key_up_releases_its_voice(p: Playing, key: u8)
    requires
        key_index(p.held, key) < p.held.len(),
        writable(p.ctx, p.held[key_index(p.held, key)].voice, GATE as int),
        p.ctx.states.len() == p.ctx.shape.max_voices,
        p.ctx.states[p.held[key_index(p.held, key)].voice.0 as int] == SlotState::Held,
    ensures
        ({
            let voice = p.held[key_index(p.held, key)].voice;
            &&& carries(lifted(p, key).ctx, voice, GATE as int, ZERO)
            &&& lifted(p, key).ctx.states[voice.0 as int] == SlotState::Released
        }),
{
    lemma_key_found(p.held, key);
    let voice = p.held[key_index(p.held, key)].voice;
    lemma_steady(p.ctx, voice, GATE as int, ZERO, voice, GATE as int, ZERO);
    let held = steady(p.ctx, voice, GATE as int, ZERO);
    assert(let_go(held, voice).bytes == held.bytes);
}

/// Once the outputs are refreshed every held voice carries the pitch of its note and an open gate,
/// for the whole block.
pub proof fn law_held_voices_sound_their_notes<F: Fn(FloatOp) -> u64>(
    fp: F,
    held: Seq<HeldVoice>,
    ctx: SourceView,
    velocity: bool,
    n: int,
    i: int,
)
    requires
        0 <= i < n <= held.len(),
        forall|k: int|
            0 <= k < held.len() ==> writable(ctx, (#[trigger] held[k]).voice, VELOCITY as int)
                || !velocity && writable(ctx, held[k].voice, GATE as int),
        forall|a: int, b: int|
            0 <= a < b < held.len() ==> (#[trigger] held[a]).voice != (#[trigger] held[b]).voice,
    ensures
        carries(
            refreshed(fp, held, ctx, velocity, n),
            held[i].voice,
            PITCH as int,
            pitch_of(fp, held[i].note),
        ),
        carries(refreshed(fp, held, ctx, velocity, n), held[i].voice, GATE as int, ONE),
        velocity ==> carries(
            refreshed(fp, held, ctx, velocity, n),
            held[i].voice,
            VELOCITY as int,
            held[i].velocity,
        ),
    decreases n,
{
    let prev = refreshed(fp, held, ctx, velocity, n - 1);
    lemma_refreshed_kept(fp, held, ctx, velocity, n - 1);
    lemma_refreshed_len(fp, held, ctx, velocity, n - 1);
    let h = held[n - 1];
    let e = held[i];
    let pitch = pitch_of(fp, h.note);
    let mine = pitch_of(fp, e.note);
    let a = steady(prev, h.voice, PITCH as int, pitch);
    let b = steady(a, h.voice, GATE as int, ONE);
    let v = h.voice;
    let w = e.voice;
    assert(writable(prev, v, GATE as int) && writable(prev, w, GATE as int));
    if i < n - 1 {
        law_held_voices_sound_their_notes(fp, held, ctx, velocity, n - 1, i);
        assert(v != w);
    }
    lemma_steady(prev, v, PITCH as int, pitch, w, PITCH as int, mine);
    lemma_steady(prev, v, PITCH as int, pitch, w, GATE as int, ONE);
    lemma_steady(a, v, GATE as int, ONE, w, PITCH as int, mine);
    lemma_steady(a, v, GATE as int, ONE, w, GATE as int, ONE);
    if velocity {
        lemma_steady(prev, v, PITCH as int, pitch, w, VELOCITY as int, e.velocity);
        lemma_steady(a, v, GATE as int, ONE, w, VELOCITY as int, e.velocity);
        lemma_steady(b, v, VELOCITY as int, h.velocity, w, PITCH as int, mine);
        lemma_steady(b, v, VELOCITY as int, h.velocity, w, GATE as int, ONE);
        lemma_steady(b, v, VELOCITY as int, h.velocity, w, VELOCITY as int, e.velocity);
    }
}

/// Refreshing outputs keeps the length of the buffer.
proof fn lemma_refreshed_len<F: Fn(FloatOp) -> u64>(
    fp: F,
    held: Seq<HeldVoice>,
    ctx: SourceView,
    velocity: bool,
    n: int,
)
    ensures
        refreshed(fp, held, ctx, velocity, n).bytes.len() == ctx.bytes.len(),
    decreases n,
{
    if n > 0 {
        lemma_refreshed_len(fp, held, ctx, velocity, n - 1);
    }
}

/// What a key holds.
pub open spec fn entry(held: Seq<HeldVoice>, key: u8) -> Option<HeldVoice> {
    if key_index(held, key) < held.len() {
        Some(held[key_index(held, key)])
    } else {
        None
    }
}

/// With keys apart, what a key holds is the one entry for it.
proof fn lemma_entry(held: Seq<HeldVoice>, i: int)
    requires
        keys_once(held),
        0 <= i < held.len(),
    ensures
        entry(held, held[i].key) == Some(held[i]),
{
    assert forall|k: int| 0 <= k < i implies (#[trigger] held[k]).key != held[i].key by {}
    lemma_key_index(held, held[i].key, i);
}

/// A key that comes up holds nothing any more, and every other key holds what it held.
pub proof fn lemma_lifted_entry(p: Playing, key: u8, other: u8)
    requires
        keys_once(p.held),
    ensures
        entry(lifted(p, key).held, other) == if other == key {
            None
        } else {
            entry(p.held, other)
        },
        lifted(p, key).ctx.free == p.ctx.free,
{
    let q = lifted(p, key);
    law_keys_are_held_once(p, key, 0, 0);
    lemma_key_found(p.held, key);
    lemma_key_found(p.held, other);
    lemma_key_found(q.held, other);
    let i = key_index(p.held, key);
    let at = key_index(q.held, other);
    if i < p.held.len() {
        lemma_without(p.held, i);
        if at < q.held.len() {
            let from = if at < i {
                at
            } else {
                at + 1
            };
            assert(q.held[at] == p.held[from]);
            lemma_entry(p.held, from);
        }
        let j = key_index(p.held, other);
        if j < p.held.len() && other != key {
            let to = if j < i {
                j
            } else {
                j - 1
            };
            assert(q.held[to] == p.held[j]);
            lemma_entry(q.held, to);
        }
    }
}

/// A key that goes down holds the next free voice, or nothing if there is none; and every other
/// key holds what it held.
pub proof fn lemma_struck_entry(p: Playing, key: u8, note: u8, velocity: u32, other: u8)
    requires
        keys_once(p.held),
    ensures
        entry(struck(p, key, note, velocity).held, other) == if other != key {
            entry(p.held, other)
        } else if p.ctx.free.len() > 0 {
            Some(HeldVoice { key, voice: VoiceId(p.ctx.free.last()), note, velocity })
        } else {
            None
        },
{
    let q = lifted(p, key);
    let r = struck(p, key, note, velocity);
    law_keys_are_held_once(p, key, note, velocity);
    lemma_lifted_entry(p, key, other);
    lemma_lifted_entry(p, key, key);
    if q.ctx.free.len() > 0 {
        let n = q.held.len() as int;
        lemma_entry(r.held, n);
        lemma_key_found(q.held, other);
        lemma_key_found(r.held, other);
        let at = key_index(q.held, other);
        if other != key {
            if at < n {
                assert(r.held[at] == q.held[at]);
                lemma_entry(r.held, at);
            } else {
                let to = key_index(r.held, other);
                if to < r.held.len() {
                    assert(r.held[to] == if to < n {
                        q.held[to]
                    } else {
                        r.held[n]
                    });
                }
            }
        }
    }
}

/// The held voices and their context go together: no key is held twice, every entry has a held
/// voice of its own, and there is room for the outputs of every slot.
pub open spec fn at_rest(p: Playing, num_outputs: int) -> bool {
    &&& keys_once(p.held)
    &&& voices_in_order(p)
    &&& p.ctx.shape.plannable()
    &&& p.ctx.bytes.len() == p.ctx.shape.len()
    &&& p.ctx.frames <= p.ctx.shape.block_size
    &&& p.ctx.states.len() == p.ctx.shape.max_voices
    &&& num_outputs <= p.ctx.shape.num_source_outputs
}

/// Every held key's voice carries the pitch of its note and an open gate, and with `velocity` its
/// velocity too, for the whole block.
pub open spec fn sounding<F: Fn(FloatOp) -> u64>(fp: F, p: Playing, velocity: bool) -> bool {
    forall|i: int|
        0 <= i < p.held.len() ==> {
            let h = #[trigger] p.held[i];
            &&& carries(p.ctx, h.voice, PITCH as int, pitch_of(fp, h.note))
            &&& carries(p.ctx, h.voice, GATE as int, ONE)
            &&& velocity ==> carries(p.ctx, h.voice, VELOCITY as int, h.velocity)
        }
}

proof fn lemma_claimed_len(c: SourceView)
    ensures
        claimed(c).bytes.len() == c.bytes.len(),
{
    let slot = c.free.last() as int;
    let n = c.shape.voice.len() as int;
    lemma_respawned_len(c.bytes, c.shape, slot, c.templates, n);
    let fresh = respawned(c.bytes, c.shape, slot, c.templates, n);
    lemma_silenced_len(fresh, c.shape, slot, c.frames as int, c.shape.num_source_outputs);
    let quiet = silenced(fresh, c.shape, slot, c.frames as int, c.shape.num_source_outputs);
    lemma_skips_len(quiet, c.shape, slot, true, n);
}

proof fn lemma_respawned_len(
    b: Seq<u8>,
    shape: VoicedShape,
    slot: int,
    templates: Seq<Seq<u8>>,
    n: int,
)
    ensures
        respawned(b, shape, slot, templates, n).len() == b.len(),
    decreases n,
{
    if n > 0 {
        lemma_respawned_len(b, shape, slot, templates, n - 1);
    }
}

proof fn lemma_silenced_len(b: Seq<u8>, shape: VoicedShape, slot: int, frames: int, n: int)
    ensures
        silenced(b, shape, slot, frames, n).len() == b.len(),
    decreases n,
{
    if n > 0 {
        lemma_silenced_len(b, shape, slot, frames, n - 1);
    }
}

proof fn lemma_skips_len(b: Seq<u8>, shape: VoicedShape, slot: int, active: bool, n: int)
    ensures
        skips_set(b, shape, slot, active, n).len() == b.len(),
    decreases n,
{
    if n > 0 {
        lemma_skips_len(b, shape, slot, active, n - 1);
    }
}

/// A key that goes down or comes up keeps voices and context together.
pub proof fn lemma_stays_at_rest(
    p: Playing,
    key: u8,
    note: u8,
    velocity: u32,
    num_outputs: int,
)
    requires
        at_rest(p, num_outputs),
    ensures
        at_rest(lifted(p, key), num_outputs),
        at_rest(struck(p, key, note, velocity), num_outputs),
{
    law_keys_are_held_once(p, key, note, velocity);
    law_every_held_key_has_its_own_voice(p, key, note, velocity);
    lemma_key_found(p.held, key);
    let q = lifted(p, key);
    assert(q.ctx.bytes.len() == p.ctx.bytes.len());
    assert(q.ctx.states.len() == p.ctx.states.len());
    if q.ctx.free.len() > 0 {
        lemma_claimed_len(q.ctx);
    }
}

/// Once the outputs are refreshed, voices and context are still together, and every held key
/// sounds.
pub proof fn lemma_refreshed_sounds<F: Fn(FloatOp) -> u64>(
    fp: F,
    p: Playing,
    velocity: bool,
    num_outputs: int,
)
    requires
        at_rest(p, num_outputs),
        num_outputs >= if velocity {
            3int
        } else {
            2
        },
    ensures
        ({
            let q = Playing {
                held: p.held,
                ctx: refreshed(fp, p.held, p.ctx, velocity, p.held.len() as int),
            };
            at_rest(q, num_outputs) && sounding(fp, q, velocity)
        }),
{
    let n = p.held.len() as int;
    let q = Playing { held: p.held, ctx: refreshed(fp, p.held, p.ctx, velocity, n) };
    lemma_refreshed_kept(fp, p.held, p.ctx, velocity, n);
    lemma_refreshed_len(fp, p.held, p.ctx, velocity, n);
    assert forall|k: int| 0 <= k < n implies writable(
        p.ctx,
        (#[trigger] p.held[k]).voice,
        VELOCITY as int,
    ) || !velocity && writable(p.ctx, p.held[k].voice, GATE as int) by {
        assert(p.held[k].voice.0 < p.ctx.states.len());
    }
    assert(sounding(fp, q, velocity)) by {
        assert forall|i: int| 0 <= i < q.held.len() implies ({
            let h = #[trigger] q.held[i];
            &&& carries(q.ctx, h.voice, PITCH as int, pitch_of(fp, h.note))
            &&& carries(q.ctx, h.voice, GATE as int, ONE)
            &&& velocity ==> carries(q.ctx, h.voice, VELOCITY as int, h.velocity)
        }) by {
            law_held_voices_sound_their_notes(fp, p.held, p.ctx, velocity, n, i);
        }
    }
}

/// The frequency of a note in equal temperament, where A4 is note 69 and 440 Hz.
pub open spec fn tempered(m: Arithmetic, note: int) -> real {
    (440 as real) * (m.exp2)(((note - 69) as real) / (12 as real))
}

/// What is near in proportion to something near in proportion is near in proportion.
proof fn lemma_scaled(x: real, f: real, g: real, by: real)
    requires
        x > 0 as real,
        near(f, 1 as real, by),
        near(g, x * f, by * (x * f)),
        (0 as real) <= by,
        by <= 1 as real,
    ensures
        near(g, x, (3 as real) * by * x),
{
    let y = x * f;
    assert(near(y, x, by * x) && by * y <= (2 as real) * by * x) by (nonlinear_arith)
        requires
            y == x * f,
            x > 0 as real,
            -by <= f - (1 as real),
            f - (1 as real) <= by,
            (0 as real) <= by,
            by <= 1 as real,
    {
        assert(y - x == x * (f - (1 as real)));
        assert(-(by * x) <= x * (f - (1 as real)));
        assert(x * (f - (1 as real)) <= by * x);
        assert(y <= (2 as real) * x);
        assert(by * y <= by * ((2 as real) * x));
    }
    assert(by * x + (2 as real) * by * x == (3 as real) * by * x) by (nonlinear_arith);
}

/// The number of semitones between a note and A4 is exact.
proof fn lemma_steps<F: Fn(FloatOp) -> u64>(fp: F, m: Arithmetic, note: u8) -> (steps: u32)
    requires
        computes(fp, m),
        note <= 127,
    ensures
        steps == eval32(fp, FloatOp::Sub(eval32(fp, FloatOp::U8ToF32(note)), NOTE_A4)),
        finite(steps),
        value(steps) == (note - 69) as real,
{
    law_constants_are_their_numbers();
    let number = eval32(fp, FloatOp::U8ToF32(note));
    let steps = eval32(fp, FloatOp::Sub(number, NOTE_A4));
    let x = value(number) - value(NOTE_A4);
    assert(x == (note - 69) as real);
    assert(stands_for(m, steps, x));
    if note >= 69 {
        let c = eval32(fp, FloatOp::U8ToF32((note - 69) as u8));
        assert(value(c) == x);
        lemma_round_exact(m, c);
    } else {
        let c = eval32(fp, FloatOp::U8ToF32((69 - note) as u8));
        let d = eval32(fp, FloatOp::Neg(c));
        assert(value(d) == x);
        lemma_round_exact(m, d);
    }
    steps
}

/// The powers of two that notes lead to.
proof fn lemma_exp2_bounds<F: Fn(FloatOp) -> u64>(fp: F, m: Arithmetic, x: real)
    requires
        takes_powers(fp, m),
        -(6 as real) <= x,
        x <= 6 as real,
    ensures
        (1 as real) / (64 as real) <= (m.exp2)(x),
        (m.exp2)(x) <= 64 as real,
{
    let one = 1 as real;
    let two = 2 as real;
    let four = 4 as real;
    let six = 6 as real;
    assert((m.exp2)(one + one) == two * two);
    assert((m.exp2)(two + two) == four * four);
    assert((m.exp2)(four + two) == (m.exp2)(four) * (m.exp2)(two));
    assert(one + one == two && two + two == four && four + two == six);
    assert((m.exp2)(six) == 64 as real);
    assert((m.exp2)(-six + six) == (m.exp2)(-six) * (m.exp2)(six));
    assert(-six + six == 0 as real);
    assert(near((m.exp2)(0 as real), one, size(0 as real)));
    assert((m.exp2)(-six) <= (m.exp2)(x) && (m.exp2)(x) <= (m.exp2)(six));
    let y = (m.exp2)(-six);
    assert(y * (64 as real) == one);
}

/// The pitch of a note is that of equal temperament: 440 Hz for note 69, and a factor of the
/// twelfth root of two for every semitone from there.
pub proof fn law_pitch_is_equal_temperament<F: Fn(FloatOp) -> u64>(fp: F, m: Arithmetic, note: u8)
    requires
        computes(fp, m),
        takes_powers(fp, m),
        note <= 127,
    ensures
        finite(pitch_of(fp, note)),
        near(
            value(pitch_of(fp, note)),
            tempered(m, note as int),
            m.error * (128 as real) * tempered(m, note as int),
        ),
{
    law_constants_are_their_numbers();
    let e = m.error;
    let steps = lemma_steps(fp, m, note);
    let x = ((note - 69) as real) / (12 as real);
    assert(-(6 as real) < x && x < 5 as real);
    let octaves = eval32(fp, FloatOp::Div(steps, STEPS_PER_OCTAVE));
    assert(stands_for(m, octaves, x));
    let o = value(octaves);
    assert(near(o, x, e * ((1 as real) + size(x))));
    assert(e * ((1 as real) + size(x)) <= e * (7 as real) && e * (7 as real) <= (1 as real) / (
    1024 as real)) by (nonlinear_arith)
        requires
            (0 as real) <= e,
            e <= (1 as real) / (65536 as real),
            size(x) <= 6 as real,
    ;
    let d = o - x;
    let by = e * (8 as real);
    assert((0 as real) <= by && by <= 1 as real && e * (4 as real) <= by && e * (7 as real) <= by);
    // The ratio, as a power of two of the exponent that it should have.
    let want = (m.exp2)(x);
    let off = (m.exp2)(d);
    assert((m.exp2)(x + d) == want * off);
    assert(x + d == o);
    assert(near(off, 1 as real, size(d)));
    lemma_exp2_bounds(fp, m, x);
    let ratio = eval32(fp, FloatOp::Powf(TWO, octaves));
    let r = value(ratio);
    assert(finite(ratio) && near(r, want * off, e * (4 as real) * (want * off)));
    assert(e * (4 as real) * (want * off) <= by * (want * off)) by (nonlinear_arith)
        requires
            e * (4 as real) <= by,
            want * off >= 0 as real,
    ;
    lemma_scaled(want, off, r, by);
    let near_want = (3 as real) * by * want;
    assert(near_want <= want / (2 as real)) by (nonlinear_arith)
        requires
            near_want == (3 as real) * by * want,
            by <= (1 as real) / (1024 as real),
            want > 0 as real,
            (0 as real) <= by,
    ;
    let pitch = eval32(fp, FloatOp::Mul(HZ_A4, ratio));
    let p = (440 as real) * r;
    assert(stands_for(m, pitch, p));
    assert(near(value(pitch), p, e * ((1 as real) + size(p))));
    let t = (440 as real) * want;
    assert(near(p, t, (440 as real) * near_want));
    assert((1 as real) + size(p) <= (2 as real) * t);
    assert(e * ((1 as real) + size(p)) <= e * (2 as real) * t) by (nonlinear_arith)
        requires
            (0 as real) <= e,
            (1 as real) + size(p) <= (2 as real) * t,
    ;
    assert((440 as real) * near_want + e * (2 as real) * t <= e * (128 as real) * t)
        by (nonlinear_arith)
        requires
            near_want == (3 as real) * by * want,
            by == e * (8 as real),
            t == (440 as real) * want,
            (0 as real) <= e,
            want > 0 as real,
    ;
}

/// Neighbouring notes are a semitone apart, and notes twelve apart an octave: the frequency of
/// equal temperament grows by the twelfth root of two per note, and doubles per octave.
pub proof fn law_semitones_multiply<F: Fn(FloatOp) -> u64>(fp: F, m: Arithmetic, note: int)
    requires
        takes_powers(fp, m),
    ensures
        tempered(m, 69) == 440 as real,
        tempered(m, note + 1) == tempered(m, note) * (m.exp2)((1 as real) / (12 as real)),
        tempered(m, note + 12) == tempered(m, note) * (2 as real),
{
    let step = (1 as real) / (12 as real);
    let x = ((note - 69) as real) / (12 as real);
    assert(((note + 1 - 69) as real) / (12 as real) == x + step);
    assert(((note + 12 - 69) as real) / (12 as real) == x + (1 as real));
    assert((m.exp2)(x + step) == (m.exp2)(x) * (m.exp2)(step));
    assert((m.exp2)(x + (1 as real)) == (m.exp2)(x) * (m.exp2)(1 as real));
    let y = (m.exp2)(x);
    let z = (m.exp2)(step);
    assert((440 as real) * (y * z) == (440 as real) * y * z) by (nonlinear_arith);
    assert(((69 - 69) as real) / (12 as real) == 0 as real);
    assert(near((m.exp2)(0 as real), 1 as real, size(0 as real)));
}

/// The pitch of a note is that of the note below it, times the twelfth root of two.
pub proof fn law_next_pitch_is_a_semitone_up<F: Fn(FloatOp) -> u64>(
    fp: F,
    m: Arithmetic,
    note: u8,
)
    requires
        computes(fp, m),
        takes_powers(fp, m),
        note < 127,
    ensures
        near(
            value(pitch_of(fp, (note + 1) as u8)),
            value(pitch_of(fp, note)) * (m.exp2)((1 as real) / (12 as real)),
            m.error * (256 as real) * tempered(m, note + 1),
        ),
{
    law_pitch_is_equal_temperament(fp, m, note);
    law_pitch_is_equal_temperament(fp, m, (note + 1) as u8);
    law_semitones_multiply(fp, m, note as int);
    let z = (m.exp2)((1 as real) / (12 as real));
    let t = tempered(m, note as int);
    let p = value(pitch_of(fp, note));
    let d = p - t;
    let by = m.error * (128 as real) * t;
    assert(p * z - t * z == d * z && -(by * z) <= d * z && d * z <= by * z) by (nonlinear_arith)
        requires
            d == p - t,
            -by <= d,
            d <= by,
            z > 0 as real,
    ;
    let up = tempered(m, note + 1);
    assert(by * z == m.error * (128 as real) * up) by (nonlinear_arith)
        requires
            by == m.error * (128 as real) * t,
            up == t * z,
    ;
    assert(m.error * (128 as real) * up + m.error * (128 as real) * up == m.error * (256 as real)
        * up) by (nonlinear_arith);
}

} // verus!
