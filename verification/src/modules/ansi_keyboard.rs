//! `ansi_keyboard`: a polyphonic voice source driven by the computer (ANSI) keyboard.
//!
//! Maps the home row (ASDF..) to natural notes and the QWERTY row to semitones, mirroring a
//! piano layout. The QWERTY row is physically shifted about half a key-width left relative to the
//! home row on a standard ANSI keyboard, so W falls between A and S (C#), E between S and D (D#),
//! R between D and F (no black key at the E-F boundary: unvoiced), T between F and G (F#), and so
//! on. Q and I are similarly unvoiced (left of C and at the B-C boundary).
//!
//! Number keys 1-9 select the base octave (default 4: A key = C4 = middle C, H key = A4 = 440 Hz).
//! Shift transposes new notes +1 octave; Ctrl transposes -1 octave; both together cancel out.
//! Already-held notes keep their original pitch regardless of modifier changes.
//!
//! **Mode (required `toggle` bool param, no default: each host states it):**
//! - `toggle: true`: the backtick/grave key enables and disables keyboard reading, starting off.
//!   While enabled, terminal echo is to be suppressed so key names don't appear in the terminal
//!   output; echo is restored when disabled. This is the CLI mode.
//! - `toggle: false`: reads continuously (starts enabled) and the backtick key is ignored. GUI
//!   hosts use this, since they gate audio with their own play/stop control.
//!
//! The host polls the OS-level key state once per audio block and hands it in.

use vstd::prelude::*;
use crate::float::{FloatOp, is_float_unit};
use crate::model::{ParamView, Params, settings};
use crate::module::{DescView, Icon, Inputs, InputsView, ModuleDesc, OsPermission, PortDesc, SourceError, SourceType};
use crate::modules::held_voices::{GATE, HeldVoice, HeldVoices, PITCH, Playing, all_ended, at_rest, ended, entry, keys_once, law_ending_all_releases_every_voice, law_keys_are_held_once, lemma_lifted_entry, lemma_refreshed_kept, lemma_refreshed_sounds, lemma_stays_at_rest, lemma_struck_entry, lifted, refreshed, slots_exist, sounding, struck};
use crate::processing::Tail;
use crate::slots::SlotState;
use crate::table::value_of;
use crate::voice_source::{PolyphonicModule, SourceCtx, SourceView, VoiceId, same_setting};

verus! {

/// The module's icon.
pub const ICON: Icon = [
    0b00000000000000000000000000000000,
    0b00000000000000000000000000000000,
    0b00000000000000000000000000000000,
    0b00000000000000000000000000000000,
    0b00000000000000000000000000000000,
    0b00000000000000000000000000000000,
    0b00000000000000000000000000000000,
    0b00000000000000000000000000000000,
    0b00000000000000000000000000000000,
    0b00000000000000000000000000000000,
    0b00011111111111111111111111111000,
    0b00010000000000000000000000001000,
    0b00010000000000000000000000001000,
    0b00010011001100110011001100001000,
    0b00010000000000000000000000001000,
    0b00010000000000000000000000001000,
    0b00010011001100110011001100001000,
    0b00010000000000000000000000001000,
    0b00010000000000000000000000001000,
    0b00010011001100110011001100001000,
    0b00010000000000000000000000001000,
    0b00010000000000000000000000001000,
    0b00011111111111111111111111111000,
    0b00000000000000000000000000000000,
    0b00000000000000000000000000000000,
    0b00000000000000000000000000000000,
    0b00000000000000000000000000000000,
    0b00000000000000000000000000000000,
    0b00000000000000000000000000000000,
    0b00000000000000000000000000000000,
    0b00000000000000000000000000000000,
    0b00000000000000000000000000000000,
];

pub const DEFAULT_OCTAVE: i32 = 4;

/// A physical key.
#[derive(Debug, Clone, Copy, PartialEq, Eq, Structural)]
pub enum Key {
    A,
    S,
    D,
    F,
    G,
    H,
    J,
    K,
    L,
    Semicolon,
    Q,
    W,
    E,
    R,
    T,
    Y,
    U,
    I,
    O,
    P,
    Key1,
    Key2,
    Key3,
    Key4,
    Key5,
    Key6,
    Key7,
    Key8,
    Key9,
    Grave,
    LShift,
    RShift,
    LControl,
    RControl,
    /// Any other key, by a number that the host gives it.
    Other(u16),
}

/// Semitone offset from C for each voiced key.
pub open spec fn semitone_of(key: Key) -> Option<i32> {
    match key {
        Key::A => Some(0),
        Key::S => Some(2),
        Key::D => Some(4),
        Key::F => Some(5),
        Key::G => Some(7),
        Key::H => Some(9),
        Key::J => Some(11),
        Key::K => Some(12),
        Key::L => Some(14),
        Key::Semicolon => Some(16),
        Key::W => Some(1),
        Key::E => Some(3),
        Key::T => Some(6),
        Key::Y => Some(8),
        Key::U => Some(10),
        Key::O => Some(13),
        Key::P => Some(15),
        _ => None,
    }
}

/// Semitone offset from C for each voiced key. `None` = unvoiced (Q, R, I: piano gaps).
///
/// Home row covers C through E one octave up; QWERTY row fills in the black keys between them,
/// leaving Q (left of C), R (E-F boundary), and I (B-C boundary) silent.
pub fn key_to_semitone(key: Key) -> (semitone: Option<i32>)
    ensures
        semitone == semitone_of(key),
{
    match key {
        Key::A => Some(0),
        Key::S => Some(2),
        Key::D => Some(4),
        Key::F => Some(5),
        Key::G => Some(7),
        Key::H => Some(9),
        Key::J => Some(11),
        Key::K => Some(12),
        Key::L => Some(14),
        Key::Semicolon => Some(16),
        Key::W => Some(1),
        Key::E => Some(3),
        Key::T => Some(6),
        Key::Y => Some(8),
        Key::U => Some(10),
        Key::O => Some(13),
        Key::P => Some(15),
        _ => None,
    }
}

/// The octave that a number key selects.
pub open spec fn octave_of(key: Key) -> Option<i32> {
    match key {
        Key::Key1 => Some(1),
        Key::Key2 => Some(2),
        Key::Key3 => Some(3),
        Key::Key4 => Some(4),
        Key::Key5 => Some(5),
        Key::Key6 => Some(6),
        Key::Key7 => Some(7),
        Key::Key8 => Some(8),
        Key::Key9 => Some(9),
        _ => None,
    }
}

/// The octave that a number key selects.
pub fn key_to_octave(key: Key) -> (octave: Option<i32>)
    ensures
        octave == octave_of(key),
{
    match key {
        Key::Key1 => Some(1),
        Key::Key2 => Some(2),
        Key::Key3 => Some(3),
        Key::Key4 => Some(4),
        Key::Key5 => Some(5),
        Key::Key6 => Some(6),
        Key::Key7 => Some(7),
        Key::Key8 => Some(8),
        Key::Key9 => Some(9),
        _ => None,
    }
}

/// C in octave n = (n+1)*12, so C4 = 60; kept within 0 and 127.
pub open spec fn note_of(octave: int, semitone: int) -> u8 {
    let note = (octave + 1) * 12 + semitone;
    if note < 0 {
        0
    } else if note > 127 {
        127
    } else {
        note as u8
    }
}

/// MIDI note for a semitone offset in the given octave. C in octave n = (n+1)*12, so C4 = 60.
pub fn midi_note(octave: i32, semitone: i32) -> (note: u8)
    requires
        octave + 1 <= i32::MAX,
        i32::MIN <= (octave + 1) * 12 <= i32::MAX,
        i32::MIN <= (octave + 1) * 12 + semitone <= i32::MAX,
    ensures
        note == note_of(octave as int, semitone as int),
{
    let note: i32 = (octave + 1) * 12 + semitone;
    if note < 0 {
        0
    } else if note > 127 {
        127
    } else {
        note as u8
    }
}

/// The first `n` keys of a poll, each once.
pub open spec fn distinct(keys: Seq<Key>, n: int) -> Seq<Key>
    decreases n,
{
    if n <= 0 {
        Seq::empty()
    } else if distinct(keys, n - 1).contains(keys[n - 1]) {
        distinct(keys, n - 1)
    } else {
        distinct(keys, n - 1).push(keys[n - 1])
    }
}

/// Those of the first `n` keys of `a` that are not in `b`.
pub open spec fn without(a: Seq<Key>, b: Seq<Key>, n: int) -> Seq<Key>
    decreases n,
{
    if n <= 0 {
        Seq::empty()
    } else if b.contains(a[n - 1]) {
        without(a, b, n - 1)
    } else {
        without(a, b, n - 1).push(a[n - 1])
    }
}

/// The octave once the first `n` pressed keys have had their say.
pub open spec fn octave_after(octave: i32, pressed: Seq<Key>, n: int) -> i32
    decreases n,
{
    if n <= 0 {
        octave
    } else {
        match octave_of(pressed[n - 1]) {
            Some(o) => o,
            None => octave_after(octave, pressed, n - 1),
        }
    }
}

/// Shift = +1 octave, Ctrl = -1, both = 0 (cancel).
pub open spec fn transposition(keys: Seq<Key>) -> int {
    let shift = keys.contains(Key::LShift) || keys.contains(Key::RShift);
    let ctrl = keys.contains(Key::LControl) || keys.contains(Key::RControl);
    if shift && !ctrl {
        1
    } else if ctrl && !shift {
        -1
    } else {
        0
    }
}

/// What is playing once the first `n` pressed keys have sounded in the given octave.
pub open spec fn presses(p: Playing, pressed: Seq<Key>, octave: int, n: int) -> Playing
    decreases n,
{
    if n <= 0 {
        p
    } else {
        let q = presses(p, pressed, octave, n - 1);
        match semitone_of(pressed[n - 1]) {
            Some(s) => struck(q, s as u8, note_of(octave, s as int), 0),
            None => q,
        }
    }
}

/// What is playing once the first `n` released keys are up.
pub open spec fn lifts(p: Playing, released: Seq<Key>, n: int) -> Playing
    decreases n,
{
    if n <= 0 {
        p
    } else {
        let q = lifts(p, released, n - 1);
        match semitone_of(released[n - 1]) {
            Some(s) => lifted(q, s as u8),
            None => q,
        }
    }
}

/// The contents of an [`AnsiKeyboard`].
#[verifier::ext_equal]
pub struct AnsiView {
    /// The keys that are down, as last polled.
    pub keys: Seq<Key>,
    /// The keys that were down in the last block.
    pub prev: Seq<Key>,
    pub octave: i32,
    pub held: Seq<HeldVoice>,
    pub enabled: bool,
    pub toggle: bool,
    /// Terminal echo is to be suppressed.
    pub quiet: bool,
}

/// What a block does.
pub open spec fn ansi_block<F: Fn(FloatOp) -> u64>(
    fp: F,
    k: AnsiView,
    ctx: SourceView,
) -> (AnsiView, SourceView) {
    let current = distinct(k.keys, k.keys.len() as int);
    let pressed = without(current, k.prev, current.len() as int);
    let released = without(k.prev, current, k.prev.len() as int);
    let flips = k.toggle && pressed.contains(Key::Grave);
    let enabled = if flips {
        !k.enabled
    } else {
        k.enabled
    };
    let start = Playing { held: k.held, ctx };
    let p = if flips && !enabled {
        all_ended(start, k.held.len() as int)
    } else {
        start
    };
    let quiet = if flips {
        enabled
    } else {
        k.quiet
    };
    if !enabled {
        (AnsiView { prev: current, held: p.held, enabled, quiet, ..k }, p.ctx)
    } else {
        let octave = octave_after(k.octave, pressed, pressed.len() as int);
        let q = presses(p, pressed, octave + transposition(current), pressed.len() as int);
        let r = lifts(q, released, released.len() as int);
        (
            AnsiView { prev: current, octave, held: r.held, enabled, quiet, ..k },
            refreshed(fp, r.held, r.ctx, false, r.held.len() as int),
        )
    }
}

/// The voice source.
pub struct AnsiKeyboard<F: Fn(FloatOp) -> u64> {
    fp: F,
    keys: Vec<Key>,
    prev_keys: Vec<Key>,
    octave: i32,
    /// Keyed by physical key so release works correctly across octave and modifier changes.
    held: HeldVoices,
    /// Whether keyboard reading is active. When `toggle` is set, the grave/backtick key flips this.
    enabled: bool,
    /// Whether the backtick/grave key toggles `enabled`. When false the keyboard reads continuously
    /// and the grave key is ignored. Set from the required `toggle` param.
    toggle: bool,
    quiet: bool,
}

/// Whether the key is in the list.
fn is_in(keys: &Vec<Key>, key: Key) -> (r: bool)
    ensures
        r == keys@.contains(key),
{
    let mut i: usize = 0;
    while i < keys.len()
        invariant
            i <= keys.len(),
            forall|k: int| 0 <= k < i ==> #[trigger] keys@[k] != key,
        decreases keys.len() - i,
    {
        if keys[i] == key {
            assert(keys@[i as int] == key);
            return true;
        }
        i = i + 1;
    }
    false
}

/// The keys of a poll, each once.
fn each_once(keys: &Vec<Key>) -> (r: Vec<Key>)
    ensures
        r@ == distinct(keys@, keys@.len() as int),
{
    let mut r: Vec<Key> = Vec::new();
    let mut i: usize = 0;
    while i < keys.len()
        invariant
            i <= keys.len(),
            r@ == distinct(keys@, i as int),
        decreases keys.len() - i,
    {
        if !is_in(&r, keys[i]) {
            r.push(keys[i]);
        }
        i = i + 1;
    }
    r
}

/// The keys of `a` that are not in `b`.
fn difference(a: &Vec<Key>, b: &Vec<Key>) -> (r: Vec<Key>)
    ensures
        r@ == without(a@, b@, a@.len() as int),
{
    let mut r: Vec<Key> = Vec::new();
    let mut i: usize = 0;
    while i < a.len()
        invariant
            i <= a.len(),
            r@ == without(a@, b@, i as int),
        decreases a.len() - i,
    {
        if !is_in(b, a[i]) {
            r.push(a[i]);
        }
        i = i + 1;
    }
    r
}

/// A selected octave is one of 1 to 9.
proof fn lemma_octave(octave: i32, pressed: Seq<Key>, n: int)
    requires
        1 <= octave <= 9,
    ensures
        1 <= octave_after(octave, pressed, n) <= 9,
    decreases n,
{
    if n > 0 {
        lemma_octave(octave, pressed, n - 1);
    }
}

impl<F: Fn(FloatOp) -> u64> View for AnsiKeyboard<F> {
    type V = AnsiView;

    closed spec fn view(&self) -> AnsiView {
        AnsiView {
            keys: self.keys@,
            prev: self.prev_keys@,
            octave: self.octave,
            held: self.held@,
            enabled: self.enabled,
            toggle: self.toggle,
            quiet: self.quiet,
        }
    }
}

impl<F: Fn(FloatOp) -> u64> AnsiKeyboard<F> {
    /// The float unit.
    pub closed spec fn unit(&self) -> F {
        self.fp
    }

    /// Hands in the keys that are down now.
    pub fn poll(&mut self, keys: Vec<Key>)
        ensures
            final(self)@ == (AnsiView { keys: keys@, ..old(self)@ }),
            final(self).unit() == old(self).unit(),
    {
        self.keys = keys;
    }

    /// Whether terminal echo is to be suppressed.
    pub fn wants_quiet(&self) -> (r: bool)
        ensures
            r == self@.quiet,
    {
        self.quiet
    }

    /// Whether keyboard reading is active.
    pub fn is_enabled(&self) -> (r: bool)
        ensures
            r == self@.enabled,
    {
        self.enabled
    }

    /// Sounds the pressed note keys.
    fn note_on(&mut self, pressed: &Vec<Key>, octave: i32, ctx: &mut SourceCtx)
        requires
            0 <= octave <= 10,
            old(ctx).wf(),
            slots_exist(old(self)@.held, old(ctx)@.shape.max_voices),
            old(ctx)@.shape.num_source_outputs >= 2,
        ensures
            final(ctx).wf(),
            final(ctx)@.shape == old(ctx)@.shape,
            slots_exist(final(self)@.held, old(ctx)@.shape.max_voices),
            final(self).unit() == old(self).unit(),
            final(self)@ == (AnsiView { held: final(self)@.held, ..old(self)@ }),
            (Playing { held: final(self)@.held, ctx: final(ctx)@ }) == presses(
                Playing { held: old(self)@.held, ctx: old(ctx)@ },
                pressed@,
                octave as int,
                pressed@.len() as int,
            ),
    {
        let mut i: usize = 0;
        while i < pressed.len()
            invariant
                i <= pressed.len(),
                0 <= octave <= 10,
                ctx.wf(),
                ctx@.shape == old(ctx)@.shape,
                ctx@.shape.num_source_outputs >= 2,
                slots_exist(self@.held, ctx@.shape.max_voices),
                self.unit() == old(self).unit(),
                self@ == (AnsiView { held: self@.held, ..old(self)@ }),
                (Playing { held: self@.held, ctx: ctx@ }) == presses(
                    Playing { held: old(self)@.held, ctx: old(ctx)@ },
                    pressed@,
                    octave as int,
                    i as int,
                ),
            decreases pressed.len() - i,
        {
            match key_to_semitone(pressed[i]) {
                Some(semitone) => {
                    let note: u8 = midi_note(octave, semitone);
                    self.held.strike(semitone as u8, note, 0, ctx);
                },
                None => {},
            }
            i = i + 1;
        }
    }

    /// Ends the released note keys.
    fn note_off(&mut self, released: &Vec<Key>, ctx: &mut SourceCtx)
        requires
            old(ctx).wf(),
            slots_exist(old(self)@.held, old(ctx)@.shape.max_voices),
            old(ctx)@.shape.num_source_outputs >= 2,
        ensures
            final(ctx).wf(),
            final(ctx)@.shape == old(ctx)@.shape,
            slots_exist(final(self)@.held, old(ctx)@.shape.max_voices),
            final(self).unit() == old(self).unit(),
            final(self)@ == (AnsiView { held: final(self)@.held, ..old(self)@ }),
            (Playing { held: final(self)@.held, ctx: final(ctx)@ }) == lifts(
                Playing { held: old(self)@.held, ctx: old(ctx)@ },
                released@,
                released@.len() as int,
            ),
    {
        let mut i: usize = 0;
        while i < released.len()
            invariant
                i <= released.len(),
                ctx.wf(),
                ctx@.shape == old(ctx)@.shape,
                ctx@.shape.num_source_outputs >= 2,
                slots_exist(self@.held, ctx@.shape.max_voices),
                self.unit() == old(self).unit(),
                self@ == (AnsiView { held: self@.held, ..old(self)@ }),
                (Playing { held: self@.held, ctx: ctx@ }) == lifts(
                    Playing { held: old(self)@.held, ctx: old(ctx)@ },
                    released@,
                    i as int,
                ),
            decreases released.len() - i,
        {
            match key_to_semitone(released[i]) {
                Some(semitone) => {
                    self.held.lift(semitone as u8, ctx);
                },
                None => {},
            }
            i = i + 1;
        }
    }

    /// Updates the octave on the press edge of any number key.
    fn select_octave(&mut self, pressed: &Vec<Key>)
        ensures
            final(self)@ == (AnsiView {
                octave: octave_after(old(self)@.octave, pressed@, pressed@.len() as int),
                ..old(self)@
            }),
            final(self).unit() == old(self).unit(),
    {
        let mut i: usize = 0;
        while i < pressed.len()
            invariant
                i <= pressed.len(),
                self@ == (AnsiView {
                    octave: octave_after(old(self)@.octave, pressed@, i as int),
                    ..old(self)@
                }),
                self.unit() == old(self).unit(),
            decreases pressed.len() - i,
        {
            match key_to_octave(pressed[i]) {
                Some(octave) => {
                    self.octave = octave;
                },
                None => {},
            }
            i = i + 1;
        }
    }
}

/// The octave offset of the modifier keys that are down.
fn modifier_offset(keys: &Vec<Key>) -> (offset: i32)
    ensures
        offset == transposition(keys@),
{
    let shift: bool = is_in(keys, Key::LShift) || is_in(keys, Key::RShift);
    let ctrl: bool = is_in(keys, Key::LControl) || is_in(keys, Key::RControl);
    if shift && !ctrl {
        1
    } else if ctrl && !shift {
        -1
    } else {
        0
    }
}

impl<F: Fn(FloatOp) -> u64> PolyphonicModule for AnsiKeyboard<F> {
    open spec fn suits(&self, max_voices: int, num_outputs: int) -> bool {
        &&& is_float_unit(self.unit())
        &&& slots_exist(self@.held, max_voices)
        &&& num_outputs >= 2
        &&& 1 <= self@.octave <= 9
    }

    open spec fn plays(before: (Self, SourceView), after: (Self, SourceView), tail: Tail) -> bool {
        &&& tail == Tail::Active
        &&& after.0.unit() == before.0.unit()
        &&& (after.0@, after.1) == ansi_block(before.0.unit(), before.0@, before.1)
    }

    fn process(&mut self, ctx: &mut SourceCtx) -> (tail: Tail) {
        let ghost fp = self.fp;
        let ghost k = self@;
        let ghost c = ctx@;
        proof {
            lemma_ansi_kept(fp, k, c);
        }
        let current = each_once(&self.keys);
        let pressed = difference(&current, &self.prev_keys);
        let released = difference(&self.prev_keys, &current);
        // Toggle on the press edge of grave/backtick (only in toggle mode).
        if self.toggle && is_in(&pressed, Key::Grave) {
            self.enabled = !self.enabled;
            self.quiet = self.enabled;
            if !self.enabled {
                // Release all held voices so notes don't sustain while the keyboard is inactive.
                self.held.end_all(ctx);
            }
        }
        let offset: i32 = modifier_offset(&current);
        // Always update prev_keys so re-enabling has a clean baseline (no spurious note-ons for
        // keys that were already held before the toggle).
        self.prev_keys = current;
        if !self.enabled {
            return Tail::Active;
        }
        proof {
            lemma_octave(k.octave, pressed@, pressed@.len() as int);
        }
        self.select_octave(&pressed);
        let effective: i32 = self.octave + offset;
        self.note_on(&pressed, effective, ctx);
        self.note_off(&released, ctx);
        self.held.refresh(&self.fp, false, ctx);
        Tail::Active
    }
}

proof fn lemma_all_ended_kept(p: Playing, n: int)
    ensures
        same_setting(all_ended(p, n).ctx, p.ctx),
    decreases n,
{
    if n > 0 {
        lemma_all_ended_kept(ended(p, 0), n - 1);
    }
}

proof fn lemma_presses_kept(p: Playing, pressed: Seq<Key>, octave: int, n: int)
    ensures
        same_setting(presses(p, pressed, octave, n).ctx, p.ctx),
    decreases n,
{
    if n > 0 {
        lemma_presses_kept(p, pressed, octave, n - 1);
    }
}

proof fn lemma_lifts_kept(p: Playing, released: Seq<Key>, n: int)
    ensures
        same_setting(lifts(p, released, n).ctx, p.ctx),
    decreases n,
{
    if n > 0 {
        lemma_lifts_kept(p, released, n - 1);
    }
}

/// Playing changes the voices and their buffers, and nothing else of the context.
pub proof fn lemma_ansi_kept<F: Fn(FloatOp) -> u64>(fp: F, k: AnsiView, ctx: SourceView)
    ensures
        same_setting(ansi_block(fp, k, ctx).1, ctx),
{
    let current = distinct(k.keys, k.keys.len() as int);
    let pressed = without(current, k.prev, current.len() as int);
    let released = without(k.prev, current, k.prev.len() as int);
    let start = Playing { held: k.held, ctx };
    lemma_all_ended_kept(start, k.held.len() as int);
    let octave = octave_after(k.octave, pressed, pressed.len() as int);
    let n = pressed.len() as int;
    let q = presses(start, pressed, octave + transposition(current), n);
    lemma_presses_kept(start, pressed, octave + transposition(current), n);
    lemma_lifts_kept(q, released, released.len() as int);
    let r = lifts(q, released, released.len() as int);
    lemma_refreshed_kept(fp, r.held, r.ctx, false, r.held.len() as int);
}

/// The registered type: `pitch`/`gate` outputs, no inputs.
#[derive(Clone, Copy)]
pub struct AnsiKeyboardType<F: Fn(FloatOp) -> u64> {
    pub fp: F,
    /// Whether the OS lets the host read the key state.
    pub readable: bool,
}

/// The ports of the source.
pub open spec fn ansi_desc() -> DescView {
    DescView {
        inputs: InputsView::Fixed(Seq::empty()),
        outputs: seq!["pitch"@, "gate"@],
        params: Seq::empty(),
    }
}

/// The `toggle` param, if it is a bool.
pub open spec fn toggle_of(settings: Map<Seq<char>, ParamView>) -> Option<bool> {
    match value_of(settings, "toggle"@) {
        Some(ParamView::Bool(b)) => Some(b),
        _ => None,
    }
}

/// A keyboard before its first block. In toggle mode it starts off (backtick turns it on);
/// otherwise it reads continuously.
pub open spec fn fresh_keyboard(toggle: bool) -> AnsiView {
    AnsiView {
        keys: Seq::empty(),
        prev: Seq::empty(),
        octave: DEFAULT_OCTAVE,
        held: Seq::empty(),
        enabled: !toggle,
        toggle,
        quiet: false,
    }
}

impl<F: Fn(FloatOp) -> u64 + Copy> SourceType for AnsiKeyboardType<F> {
    type Module = AnsiKeyboard<F>;

    open spec fn ready(&self) -> bool {
        is_float_unit(self.fp)
    }

    open spec fn desc(&self, settings: Map<Seq<char>, ParamView>) -> DescView {
        ansi_desc()
    }

    open spec fn makes(
        &self,
        settings: Map<Seq<char>, ParamView>,
        made: Result<AnsiKeyboard<F>, SourceError>,
    ) -> bool {
        match toggle_of(settings) {
            None => made matches Err(SourceError::Other(msg)) && msg@
                == "ansi_keyboard requires a `toggle` bool param (true = backtick toggles reading, false = always on)"@,
            Some(toggle) => if !self.readable {
                made matches Err(SourceError::PermissionDenied(what)) && what
                    == OsPermission::Accessibility
            } else {
                made matches Ok(keyboard) && keyboard.unit() == self.fp && keyboard@
                    == fresh_keyboard(toggle)
            },
        }
    }

    open spec fn picture(&self) -> Icon {
        ICON
    }

    fn describe(&self, params: &Params) -> (desc: ModuleDesc) {
        let outputs: Vec<PortDesc> = vec![PortDesc::sample("pitch"), PortDesc::sample("gate")];
        let desc = ModuleDesc { inputs: Inputs::Fixed(Vec::new()), outputs, params: Vec::new() };
        assert(desc@ =~~= ansi_desc());
        desc
    }

    fn make(&self, params: &Params) -> (made: Result<AnsiKeyboard<F>, SourceError>) {
        // Required, no default: the host must state whether the backtick key toggles reading.
        let toggle: Option<bool> = match params.get("toggle") {
            Some(v) => v.as_bool(),
            None => None,
        };
        match toggle {
            None => Err(
                SourceError::Other(
                    "ansi_keyboard requires a `toggle` bool param (true = backtick toggles reading, false = always on)".to_owned(),
                ),
            ),
            Some(toggle) => if !self.readable {
                Err(SourceError::PermissionDenied(OsPermission::Accessibility))
            } else {
                let keyboard = AnsiKeyboard {
                    fp: self.fp,
                    keys: Vec::new(),
                    prev_keys: Vec::new(),
                    octave: DEFAULT_OCTAVE,
                    held: HeldVoices::new(),
                    enabled: !toggle,
                    toggle,
                    quiet: false,
                };
                assert(keyboard@ =~= fresh_keyboard(toggle));
                Ok(keyboard)
            },
        }
    }

    fn icon(&self) -> (icon: Icon) {
        ICON
    }
}

/// Each voiced key has a semitone of its own, from C to E one octave up; the keys at the piano's
/// gaps (Q, R, I), the number keys, the modifiers and the backtick are not notes.
pub proof fn law_each_voiced_key_has_its_own_semitone(a: Key, b: Key)
    ensures
        semitone_of(a) matches Some(s) ==> 0 <= s <= 16 && octave_of(a) is None,
        semitone_of(a) is Some && semitone_of(a) == semitone_of(b) ==> a == b,
        semitone_of(Key::Q) is None,
        semitone_of(Key::R) is None,
        semitone_of(Key::I) is None,
        semitone_of(Key::Grave) is None,
{
}

/// One octave further up is twelve notes further up, as long as there are such notes.
pub proof fn law_octaves_are_twelve_notes_apart(octave: int, semitone: int)
    requires
        0 <= (octave + 1) * 12 + semitone,
        (octave + 2) * 12 + semitone <= 127,
    ensures
        note_of(octave + 1, semitone) == note_of(octave, semitone) + 12,
{
}

/// The home row, from left to right.
pub open spec fn home_row() -> Seq<Key> {
    seq![
        Key::A,
        Key::S,
        Key::D,
        Key::F,
        Key::G,
        Key::H,
        Key::J,
        Key::K,
        Key::L,
        Key::Semicolon,
    ]
}

/// The row above the home row, each key above and between two neighbors of the home row.
pub open spec fn upper_row() -> Seq<Key> {
    seq![Key::W, Key::E, Key::R, Key::T, Key::Y, Key::U, Key::I, Key::O, Key::P]
}

/// The number keys, from left to right.
pub open spec fn number_row() -> Seq<Key> {
    seq![
        Key::Key1,
        Key::Key2,
        Key::Key3,
        Key::Key4,
        Key::Key5,
        Key::Key6,
        Key::Key7,
        Key::Key8,
        Key::Key9,
    ]
}

/// The keys lie as on a piano that starts at C: neighbors on the home row are two semitones apart
/// where a black key is between them and one where none is, the black key is the semitone between,
/// the two gaps are where a major scale has its half steps, and the scale repeats an octave up.
pub proof fn law_keys_lie_as_on_a_piano(i: int)
    requires
        0 <= i < 9,
    ensures
        semitone_of(Key::A) == Some(0i32),
        ({
            let left = semitone_of(home_row()[i]);
            let right = semitone_of(home_row()[i + 1]);
            let black = semitone_of(upper_row()[i]);
            &&& left is Some
            &&& right is Some
            &&& black is None <==> i % 7 == 2 || i % 7 == 6
            &&& black is None ==> right->0 == left->0 + 1
            &&& black is Some ==> black->0 == left->0 + 1 && right->0 == black->0 + 1
            &&& i + 7 < 10 ==> semitone_of(home_row()[i + 7]) == Some((left->0 + 12) as i32)
        }),
{
    assert(i == 0 || i == 1 || i == 2 || i == 3 || i == 4 || i == 5 || i == 6 || i == 7 || i == 8);
}

/// The number keys select one octave after the other, from the first on; no other key selects one.
pub proof fn law_number_keys_select_octaves(i: int, key: Key)
    requires
        0 <= i < 9,
    ensures
        octave_of(number_row()[i]) == Some((i + 1) as i32),
        octave_of(key) is Some ==> number_row().contains(key),
{
    assert(i == 0 || i == 1 || i == 2 || i == 3 || i == 4 || i == 5 || i == 6 || i == 7 || i == 8);
    let row = number_row();
    if octave_of(key) is Some {
        assert(key == row[0] || key == row[1] || key == row[2] || key == row[3] || key == row[4]
            || key == row[5] || key == row[6] || key == row[7] || key == row[8]);
    }
}

/// The C of octave 4 is the middle C, and a semitone is one note, up to the ends of the range.
pub proof fn law_semitones_are_one_note_apart(octave: int, semitone: int)
    ensures
        note_of(4, 0) == 60,
        note_of(octave, semitone) <= 127,
        note_of(octave, semitone) <= note_of(octave, semitone + 1) <= note_of(octave, semitone) + 1,
        0 < note_of(octave, semitone) < 127 ==> note_of(octave, semitone + 1) == note_of(
            octave,
            semitone,
        ) + 1,
        note_of(octave, semitone + 12) == note_of(octave + 1, semitone),
{
}

/// Shift plays an octave higher and Ctrl an octave lower, whichever side they are on; together they
/// cancel, and other keys do not matter.
pub proof fn law_modifiers_move_by_an_octave(keys: Seq<Key>, octave: int, semitone: int)
    requires
        12 <= (octave + 1) * 12 + semitone <= 115,
    ensures
        ({
            let shift = keys.contains(Key::LShift) || keys.contains(Key::RShift);
            let ctrl = keys.contains(Key::LControl) || keys.contains(Key::RControl);
            let plain = note_of(octave, semitone) as int;
            let moved = note_of(octave + transposition(keys), semitone) as int;
            &&& shift && !ctrl ==> moved == plain + 12
            &&& ctrl && !shift ==> moved == plain - 12
            &&& shift == ctrl ==> moved == plain
        }),
{
}

/// The number key that was pressed last decides the octave; without one it stays as it was.
pub proof fn law_last_number_key_decides_the_octave(octave: i32, pressed: Seq<Key>, k: int, n: int)
    requires
        -1 <= k < n <= pressed.len(),
        forall|i: int| k < i < n ==> octave_of(#[trigger] pressed[i]) is None,
        k >= 0 ==> octave_of(pressed[k]) is Some,
    ensures
        octave_after(octave, pressed, n) == if k >= 0 {
            octave_of(pressed[k])->0
        } else {
            octave
        },
    decreases n,
{
    if k < n - 1 {
        assert(octave_of(pressed[n - 1]) is None);
        law_last_number_key_decides_the_octave(octave, pressed, k, n - 1);
    }
}

/// Keys that stay down press nothing.
proof fn lemma_none_without(a: Seq<Key>, b: Seq<Key>, n: int)
    requires
        0 <= n <= a.len(),
        forall|k: int| 0 <= k < n ==> b.contains(#[trigger] a[k]),
    ensures
        without(a, b, n).len() == 0,
    decreases n,
{
    if n > 0 {
        lemma_none_without(a, b, n - 1);
        assert(b.contains(a[n - 1]));
    }
}

/// As long as the same keys are down nothing starts and nothing ends, whether the keyboard is
/// enabled or not: keys that were already down when it was enabled stay silent.
pub proof fn law_keys_that_stay_down_change_nothing<F: Fn(FloatOp) -> u64>(
    fp: F,
    k: AnsiView,
    ctx: SourceView,
)
    requires
        k.prev == distinct(k.keys, k.keys.len() as int),
    ensures
        ansi_block(fp, k, ctx).0 == k,
        ansi_block(fp, k, ctx).1 == if k.enabled {
            refreshed(fp, k.held, ctx, false, k.held.len() as int)
        } else {
            ctx
        },
{
    let current = distinct(k.keys, k.keys.len() as int);
    assert forall|i: int| 0 <= i < current.len() implies current.contains(#[trigger] current[i]) by {}
    lemma_none_without(current, k.prev, current.len() as int);
    lemma_none_without(k.prev, current, k.prev.len() as int);
    assert(ansi_block(fp, k, ctx).0 =~= k);
}

/// Turning the keyboard off releases all that it holds.
pub proof fn law_turning_off_releases_everything<F: Fn(FloatOp) -> u64>(
    fp: F,
    k: AnsiView,
    ctx: SourceView,
)
    requires
        k.toggle,
        k.enabled,
        k.keys.contains(Key::Grave),
        !k.prev.contains(Key::Grave),
        slots_exist(k.held, ctx.states.len() as int),
    ensures
        !ansi_block(fp, k, ctx).0.enabled,
        !ansi_block(fp, k, ctx).0.quiet,
        ansi_block(fp, k, ctx).0.held.len() == 0,
        forall|i: int|
            0 <= i < k.held.len() ==> ansi_block(fp, k, ctx).1.states[(#[trigger] k.held[i]).voice.0 as int]
                != SlotState::Held,
{
    let current = distinct(k.keys, k.keys.len() as int);
    let n = current.len() as int;
    let i = choose|i: int| 0 <= i < k.keys.len() && k.keys[i] == Key::Grave;
    lemma_distinct_has(k.keys, k.keys.len() as int, i);
    let j = choose|j: int| 0 <= j < n && current[j] == Key::Grave;
    lemma_without_has(current, k.prev, n, j);
    law_ending_all_releases_every_voice(Playing { held: k.held, ctx }, k.held.len() as int);
}

/// Every key of a poll is among the distinct ones.
proof fn lemma_distinct_has(keys: Seq<Key>, n: int, i: int)
    requires
        0 <= i < n <= keys.len(),
    ensures
        distinct(keys, n).contains(keys[i]),
    decreases n,
{
    let less = distinct(keys, n - 1);
    let all = distinct(keys, n);
    if i < n - 1 {
        lemma_distinct_has(keys, n - 1, i);
        let j = choose|j: int| 0 <= j < less.len() && less[j] == keys[i];
        assert(all[j] == keys[i]);
    } else if !less.contains(keys[i]) {
        assert(all[less.len() as int] == keys[i]);
    }
}

/// A key that is not in the other list stays.
proof fn lemma_without_has(a: Seq<Key>, b: Seq<Key>, n: int, i: int)
    requires
        0 <= i < n <= a.len(),
        !b.contains(a[i]),
    ensures
        without(a, b, n).contains(a[i]),
    decreases n,
{
    let less = without(a, b, n - 1);
    let all = without(a, b, n);
    if i < n - 1 {
        lemma_without_has(a, b, n - 1, i);
        let j = choose|j: int| 0 <= j < less.len() && less[j] == a[i];
        assert(all[j] == a[i]);
    } else {
        assert(all[less.len() as int] == a[i]);
    }
}

proof fn lemma_presses_at_rest(p: Playing, pressed: Seq<Key>, octave: int, n: int)
    requires
        at_rest(p, 2),
    ensures
        at_rest(presses(p, pressed, octave, n), 2),
    decreases n,
{
    if n > 0 {
        lemma_presses_at_rest(p, pressed, octave, n - 1);
        if let Some(s) = semitone_of(pressed[n - 1]) {
            let q = presses(p, pressed, octave, n - 1);
            lemma_stays_at_rest(q, s as u8, note_of(octave, s as int), 0, 2);
        }
    }
}

proof fn lemma_lifts_at_rest(p: Playing, released: Seq<Key>, n: int)
    requires
        at_rest(p, 2),
    ensures
        at_rest(lifts(p, released, n), 2),
    decreases n,
{
    if n > 0 {
        lemma_lifts_at_rest(p, released, n - 1);
        if let Some(s) = semitone_of(released[n - 1]) {
            lemma_stays_at_rest(lifts(p, released, n - 1), s as u8, 0, 0, 2);
        }
    }
}

/// After a block with the keyboard enabled every held key has a held voice of its own, and that
/// voice carries the key's pitch and an open gate.
pub proof fn law_held_keys_sound_after_a_block<F: Fn(FloatOp) -> u64>(
    fp: F,
    k: AnsiView,
    ctx: SourceView,
)
    requires
        at_rest(Playing { held: k.held, ctx }, 2),
        ansi_block(fp, k, ctx).0.enabled,
    ensures
        ({
            let (after, c) = ansi_block(fp, k, ctx);
            let p = Playing { held: after.held, ctx: c };
            at_rest(p, 2) && sounding(fp, p, false)
        }),
{
    let current = distinct(k.keys, k.keys.len() as int);
    let pressed = without(current, k.prev, current.len() as int);
    let released = without(k.prev, current, k.prev.len() as int);
    let octave = octave_after(k.octave, pressed, pressed.len() as int) + transposition(current);
    let p = Playing { held: k.held, ctx };
    lemma_presses_at_rest(p, pressed, octave, pressed.len() as int);
    let q = presses(p, pressed, octave, pressed.len() as int);
    lemma_lifts_at_rest(q, released, released.len() as int);
    lemma_refreshed_sounds(fp, lifts(q, released, released.len() as int), false, 2);
}

/// The place of the last of the first `n` keys that is `key`, or -1.
pub open spec fn last_of(keys: Seq<Key>, key: Key, n: int) -> int
    decreases n,
{
    if n <= 0 {
        -1
    } else if keys[n - 1] == key {
        n - 1
    } else {
        last_of(keys, key, n - 1)
    }
}

/// What a note key holds once the keys are pressed, if its press has place `i` among them.
pub open spec fn press_decided(
    p: Playing,
    pressed: Seq<Key>,
    octave: int,
    i: int,
    semitone: i32,
) -> Option<HeldVoice> {
    let free = presses(p, pressed, octave, i).ctx.free;
    if i < 0 {
        entry(p.held, semitone as u8)
    } else if free.len() > 0 {
        Some(
            HeldVoice {
                key: semitone as u8,
                voice: VoiceId(free.last()),
                note: note_of(octave, semitone as int),
                velocity: 0,
            },
        )
    } else {
        None
    }
}

proof fn lemma_last_press_decides(p: Playing, pressed: Seq<Key>, octave: int, n: int, key: Key)
    requires
        keys_once(p.held),
        0 <= n <= pressed.len(),
        semitone_of(key) is Some,
    ensures
        keys_once(presses(p, pressed, octave, n).held),
        entry(presses(p, pressed, octave, n).held, semitone_of(key)->0 as u8) == press_decided(
            p,
            pressed,
            octave,
            last_of(pressed, key, n),
            semitone_of(key)->0,
        ),
    decreases n,
{
    if n > 0 {
        lemma_last_press_decides(p, pressed, octave, n - 1, key);
        let q = presses(p, pressed, octave, n - 1);
        if let Some(s) = semitone_of(pressed[n - 1]) {
            let note = note_of(octave, s as int);
            law_keys_are_held_once(q, s as u8, note, 0);
            lemma_struck_entry(q, s as u8, note, 0, semitone_of(key)->0 as u8);
            law_each_voiced_key_has_its_own_semitone(pressed[n - 1], key);
            law_each_voiced_key_has_its_own_semitone(key, key);
        }
    }
}

proof fn lemma_lifts_decide(p: Playing, released: Seq<Key>, n: int, key: Key)
    requires
        keys_once(p.held),
        0 <= n <= released.len(),
        semitone_of(key) is Some,
    ensures
        keys_once(lifts(p, released, n).held),
        entry(lifts(p, released, n).held, semitone_of(key)->0 as u8) == if last_of(released, key, n)
            < 0 {
            entry(p.held, semitone_of(key)->0 as u8)
        } else {
            None
        },
    decreases n,
{
    if n > 0 {
        lemma_lifts_decide(p, released, n - 1, key);
        let q = lifts(p, released, n - 1);
        if let Some(s) = semitone_of(released[n - 1]) {
            law_keys_are_held_once(q, s as u8, 0, 0);
            lemma_lifted_entry(q, s as u8, semitone_of(key)->0 as u8);
            law_each_voiced_key_has_its_own_semitone(released[n - 1], key);
            law_each_voiced_key_has_its_own_semitone(key, key);
        }
    }
}

proof fn lemma_last_of(keys: Seq<Key>, key: Key, n: int)
    requires
        0 <= n <= keys.len(),
    ensures
        -1 <= last_of(keys, key, n) < n,
        last_of(keys, key, n) >= 0 ==> keys[last_of(keys, key, n)] == key,
        last_of(keys, key, n) < 0 ==> forall|i: int| 0 <= i < n ==> #[trigger] keys[i] != key,
    decreases n,
{
    if n > 0 {
        lemma_last_of(keys, key, n - 1);
    }
}

proof fn lemma_without_only(a: Seq<Key>, b: Seq<Key>, n: int)
    requires
        0 <= n <= a.len(),
    ensures
        forall|i: int|
            0 <= i < without(a, b, n).len() ==> a.contains(#[trigger] without(a, b, n)[i])
                && !b.contains(without(a, b, n)[i]),
    decreases n,
{
    if n > 0 {
        lemma_without_only(a, b, n - 1);
        let less = without(a, b, n - 1);
        let all = without(a, b, n);
        assert forall|i: int| 0 <= i < all.len() implies a.contains(#[trigger] all[i])
            && !b.contains(all[i]) by {
            if i < less.len() {
                assert(all[i] == less[i]);
            } else {
                assert(all[i] == a[n - 1]);
            }
        }
    }
}

/// After a block with the keyboard enabled, a note key that went down in it is held if and only if
/// it found a free voice, and then by that voice and with the note of its octave; one that came up
/// is not held; and any other is held as before.
pub proof fn law_last_stroke_decides_a_key<F: Fn(FloatOp) -> u64>(
    fp: F,
    k: AnsiView,
    ctx: SourceView,
    key: Key,
)
    requires
        keys_once(k.held),
        semitone_of(key) is Some,
        ansi_block(fp, k, ctx).0.enabled,
    ensures
        ({
            let current = distinct(k.keys, k.keys.len() as int);
            let pressed = without(current, k.prev, current.len() as int);
            let octave = octave_after(k.octave, pressed, pressed.len() as int) + transposition(
                current,
            );
            let s = semitone_of(key)->0;
            let was = Playing { held: k.held, ctx };
            entry(ansi_block(fp, k, ctx).0.held, s as u8) == if current.contains(key)
                && !k.prev.contains(key) {
                press_decided(
                    was,
                    pressed,
                    octave,
                    last_of(pressed, key, pressed.len() as int),
                    s,
                )
            } else if k.prev.contains(key) && !current.contains(key) {
                None
            } else {
                entry(k.held, s as u8)
            }
        }),
        ({
            let current = distinct(k.keys, k.keys.len() as int);
            let pressed = without(current, k.prev, current.len() as int);
            let i = last_of(pressed, key, pressed.len() as int);
            current.contains(key) && !k.prev.contains(key) ==> 0 <= i < pressed.len()
                && pressed[i] == key
        }),
{
    let current = distinct(k.keys, k.keys.len() as int);
    let n = current.len() as int;
    let m = k.prev.len() as int;
    let pressed = without(current, k.prev, n);
    let released = without(k.prev, current, m);
    let octave = octave_after(k.octave, pressed, pressed.len() as int) + transposition(current);
    let was = Playing { held: k.held, ctx };
    let np = pressed.len() as int;
    let nr = released.len() as int;
    lemma_last_press_decides(was, pressed, octave, np, key);
    lemma_lifts_decide(presses(was, pressed, octave, np), released, nr, key);
    lemma_last_of(pressed, key, np);
    lemma_last_of(released, key, nr);
    lemma_without_only(current, k.prev, n);
    lemma_without_only(k.prev, current, m);
    if current.contains(key) && !k.prev.contains(key) {
        let j = choose|j: int| 0 <= j < n && current[j] == key;
        lemma_without_has(current, k.prev, n, j);
        let i = choose|i: int| 0 <= i < np && pressed[i] == key;
        assert(pressed[i] == key);
    }
    if k.prev.contains(key) && !current.contains(key) {
        let j = choose|j: int| 0 <= j < m && k.prev[j] == key;
        lemma_without_has(k.prev, current, m, j);
        let i = choose|i: int| 0 <= i < nr && released[i] == key;
        assert(released[i] == key);
    }
}

/// The distinct keys of a poll are its keys, none of them twice.
pub proof fn law_distinct_keys_are_the_keys(keys: Seq<Key>, n: int, key: Key)
    requires
        0 <= n <= keys.len(),
    ensures
        distinct(keys, n).contains(key) <==> keys.take(n).contains(key),
        distinct(keys, n).no_duplicates(),
    decreases n,
{
    let d = distinct(keys, n);
    if n > 0 {
        let less = distinct(keys, n - 1);
        let last = keys[n - 1];
        law_distinct_keys_are_the_keys(keys, n - 1, key);
        assert(keys.take(n) =~= keys.take(n - 1).push(last));
        assert(keys.take(n)[n - 1] == last);
        if keys.take(n - 1).contains(key) {
            let some = keys.take(n - 1);
            let i = choose|i: int| 0 <= i < some.len() && some[i] == key;
            assert(keys.take(n)[i] == key);
        }
        if keys.take(n).contains(key) && key != last {
            let all = keys.take(n);
            let i = choose|i: int| 0 <= i < all.len() && all[i] == key;
            assert(keys.take(n - 1)[i] == key);
        }
        if less.contains(key) {
            let i = choose|i: int| 0 <= i < less.len() && less[i] == key;
            assert(d[i] == key);
        }
        if !less.contains(last) {
            assert(d[less.len() as int] == last);
            if d.contains(key) && key != last {
                let i = choose|i: int| 0 <= i < d.len() && d[i] == key;
                assert(less[i] == key);
            }
        }
    }
}

/// The backtick alone, and only with a toggle, turns the keyboard on and off, at the poll in which
/// it went down; and a keyboard that is off and stays off plays nothing and keeps its octave.
pub proof fn law_backtick_toggles_the_keyboard<F: Fn(FloatOp) -> u64>(
    fp: F,
    k: AnsiView,
    ctx: SourceView,
)
    ensures
        ({
            let (after, c) = ansi_block(fp, k, ctx);
            let struck_now = k.keys.contains(Key::Grave) && !k.prev.contains(Key::Grave);
            &&& after.enabled == if k.toggle && struck_now {
                !k.enabled
            } else {
                k.enabled
            }
            &&& after.toggle == k.toggle
            &&& k.toggle && struck_now ==> after.quiet == after.enabled
            &&& !(k.toggle && struck_now) ==> after.quiet == k.quiet
            &&& !k.enabled && !after.enabled ==> after.held == k.held && after.octave == k.octave
                && c == ctx
            &&& forall|key: Key| #[trigger] after.prev.contains(key) <==> k.keys.contains(key)
        }),
{
    let n = k.keys.len() as int;
    let current = distinct(k.keys, n);
    let pressed = without(current, k.prev, current.len() as int);
    assert(k.keys.take(n) =~= k.keys);
    assert forall|key: Key| #[trigger] current.contains(key) <==> k.keys.contains(key) by {
        law_distinct_keys_are_the_keys(k.keys, n, key);
    }
    lemma_without_only(current, k.prev, current.len() as int);
    if k.keys.contains(Key::Grave) && !k.prev.contains(Key::Grave) {
        assert(current.contains(Key::Grave));
        let j = choose|j: int| 0 <= j < current.len() && current[j] == Key::Grave;
        lemma_without_has(current, k.prev, current.len() as int, j);
        assert(pressed.contains(Key::Grave));
    }
    if pressed.contains(Key::Grave) {
        let i = choose|i: int| 0 <= i < pressed.len() && pressed[i] == Key::Grave;
        assert(current.contains(pressed[i]) && !k.prev.contains(pressed[i]));
    }
}

/// The outputs have the names of what they carry, and a fresh keyboard is silent, starts with the middle
/// C on its home row, and reads keys at once unless it waits for its toggle.
pub proof fn law_fresh_keyboard_starts_at_middle_c(toggle: bool)
    ensures
        ansi_desc().outputs.len() == 2,
        ansi_desc().outputs[PITCH as int] == "pitch"@,
        ansi_desc().outputs[GATE as int] == "gate"@,
        note_of(
            fresh_keyboard(toggle).octave as int,
            semitone_of(home_row()[0])->0 as int,
        ) == 60,
        fresh_keyboard(toggle).held.len() == 0,
        fresh_keyboard(toggle).prev.len() == 0,
        fresh_keyboard(toggle).enabled <==> !toggle,
        fresh_keyboard(toggle).toggle == toggle,
        !fresh_keyboard(toggle).quiet,
{
}

/// A block of an enabled keyboard leaves every held key sounding its note on a voice of its own, and no
/// key held that has come up; it remembers the keys that are down.
pub proof fn law_source_sounds_its_held_keys<F: Fn(FloatOp) -> u64>(
    before: (AnsiKeyboard<F>, SourceView),
    after: (AnsiKeyboard<F>, SourceView),
    tail: Tail,
    key: Key,
)
    requires
        AnsiKeyboard::<F>::plays(before, after, tail),
        at_rest(Playing { held: before.0@.held, ctx: before.1 }, 2),
        after.0@.enabled,
        semitone_of(key) is Some,
    ensures
        ({
            let p = Playing { held: after.0@.held, ctx: after.1 };
            let was = before.0@;
            let held = entry(after.0@.held, semitone_of(key)->0 as u8);
            &&& tail == Tail::Active
            &&& at_rest(p, 2)
            &&& sounding(before.0.unit(), p, false)
            &&& was.prev.contains(key) && !was.keys.contains(key) ==> held is None
            &&& was.prev.contains(key) == was.keys.contains(key) ==> held == entry(
                was.held,
                semitone_of(key)->0 as u8,
            )
            &&& after.0@.prev.contains(key) <==> was.keys.contains(key)
        }),
{
    let fp = before.0.unit();
    let k = before.0@;
    let n = k.keys.len() as int;
    law_held_keys_sound_after_a_block(fp, k, before.1);
    law_last_stroke_decides_a_key(fp, k, before.1, key);
    law_distinct_keys_are_the_keys(k.keys, n, key);
    assert(k.keys.take(n) =~= k.keys);
    law_backtick_toggles_the_keyboard(fp, k, before.1);
}

} // verus!
