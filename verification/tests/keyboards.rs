use synth_core::float::FloatOp;
use synth_core::model::{ParamValue, Params};
use synth_core::module::{SlotManager, SourceCtx, SourceType};
use synth_core::modules::ansi_keyboard::{
    DEFAULT_OCTAVE, Key, key_to_octave, key_to_semitone, midi_note,
};
use synth_core::modules::const_generator::Const;
use synth_core::modules::held_voices::{HeldVoices, note_to_hz};
use synth_core::modules::midi_keyboard::{MidiKeyboardType, NoteEvent, decode, open, pick_port};
use synth_core::plan::VoicedPlan;

/// Evaluates an operation with the machine's own floating point.
fn native(op: FloatOp) -> u64 {
    match op {
        FloatOp::Add(x, y) => single(f32::from_bits(x) + f32::from_bits(y)),
        FloatOp::Sub(x, y) => single(f32::from_bits(x) - f32::from_bits(y)),
        FloatOp::Mul(x, y) => single(f32::from_bits(x) * f32::from_bits(y)),
        FloatOp::Div(x, y) => single(f32::from_bits(x) / f32::from_bits(y)),
        FloatOp::RemEuclid(x, y) => single(f32::from_bits(x).rem_euclid(f32::from_bits(y))),
        FloatOp::Max(x, y) => single(f32::from_bits(x).max(f32::from_bits(y))),
        FloatOp::Clamp(x, lo, hi) => {
            single(f32::from_bits(x).clamp(f32::from_bits(lo), f32::from_bits(hi)))
        }
        FloatOp::Powf(x, y) => single(f32::from_bits(x).powf(f32::from_bits(y))),
        FloatOp::Sin(x) => single(f32::from_bits(x).sin()),
        FloatOp::Neg(x) => single(-f32::from_bits(x)),
        FloatOp::Lt(x, y) => u64::from(f32::from_bits(x) < f32::from_bits(y)),
        FloatOp::Le(x, y) => u64::from(f32::from_bits(x) <= f32::from_bits(y)),
        FloatOp::DivF64(x, y) => (f64::from_bits(x) / f64::from_bits(y)).to_bits(),
        FloatOp::MulF64(x, y) => (f64::from_bits(x) * f64::from_bits(y)).to_bits(),
        FloatOp::MaxF64(x, y) => f64::from_bits(x).max(f64::from_bits(y)).to_bits(),
        FloatOp::RoundF64(x) => f64::from_bits(x).round().to_bits(),
        FloatOp::U8ToF32(n) => single(n as f32),
        FloatOp::U32ToF32(n) => single(n as f32),
        FloatOp::U64ToF64(n) => (n as f64).to_bits(),
        FloatOp::I64ToF64(n) => (n as f64).to_bits(),
        FloatOp::F32ToF64(x) => (f32::from_bits(x) as f64).to_bits(),
        FloatOp::F64ToF32(x) => single(f64::from_bits(x) as f32),
        FloatOp::F64ToI64(x) => f64::from_bits(x) as i64 as u64,
        FloatOp::F64ToU64(x) => f64::from_bits(x) as u64,
        FloatOp::F32ToU32(x) => u64::from(f32::from_bits(x) as u32),
        FloatOp::F32ToI16(x) => u64::from(f32::from_bits(x) as i16 as u16),
    }
}

/// The bits of a single-precision result.
fn single(x: f32) -> u64 {
    u64::from(x.to_bits())
}

type Unit = fn(FloatOp) -> u64;

fn unit() -> Unit {
    native
}

fn hz(note: u8) -> f32 {
    f32::from_bits(note_to_hz(note, &unit()))
}

#[test]
fn middle_c_layout() {
    // Default octave 4: A = C4 = MIDI 60 (middle C).
    assert_eq!(midi_note(DEFAULT_OCTAVE, key_to_semitone(Key::A).unwrap()), 60);
    // W = C#4 = MIDI 61.
    assert_eq!(midi_note(DEFAULT_OCTAVE, key_to_semitone(Key::W).unwrap()), 61);
    // H = A4 = MIDI 69 = 440 Hz.
    assert_eq!(midi_note(DEFAULT_OCTAVE, key_to_semitone(Key::H).unwrap()), 69);
    // Semicolon = E5 = MIDI 76.
    assert_eq!(midi_note(DEFAULT_OCTAVE, key_to_semitone(Key::Semicolon).unwrap()), 76);
}

#[test]
fn piano_gaps_are_unvoiced() {
    assert!(key_to_semitone(Key::Q).is_none()); // left of C
    assert!(key_to_semitone(Key::R).is_none()); // E-F boundary
    assert!(key_to_semitone(Key::I).is_none()); // B-C boundary
}

#[test]
fn grave_is_not_a_note() {
    // Grave is the enable/disable toggle, never a note.
    assert!(key_to_semitone(Key::Grave).is_none());
}

#[test]
fn octave_keys() {
    assert_eq!(key_to_octave(Key::Key1), Some(1));
    assert_eq!(key_to_octave(Key::Key4), Some(4));
    assert_eq!(key_to_octave(Key::Key9), Some(9));
    assert_eq!(key_to_octave(Key::A), None);
}

#[test]
fn note_to_hz_a440() {
    assert!((hz(69) - 440.0).abs() < 1e-3);
}

#[test]
fn octave_shift_changes_note() {
    assert_eq!(midi_note(3, key_to_semitone(Key::A).unwrap()), 48); // C3
    assert_eq!(midi_note(5, key_to_semitone(Key::A).unwrap()), 72); // C5
}

#[test]
fn modifier_octave_offset() {
    let base = key_to_semitone(Key::A).unwrap(); // C, semitone 0
    assert_eq!(midi_note(DEFAULT_OCTAVE + 1, base), 72); // Shift: C5
    assert_eq!(midi_note(DEFAULT_OCTAVE - 1, base), 48); // Ctrl:  C3
    assert_eq!(midi_note(DEFAULT_OCTAVE, base), 60); // Both:  C4
}

#[test]
fn notes_stay_within_midi() {
    assert_eq!(midi_note(-5, 0), 0);
    assert_eq!(midi_note(10, 16), 127);
}

#[test]
fn note_69_is_a440() {
    assert!((hz(69) - 440.0).abs() < 1e-3);
    assert!((hz(81) - 880.0).abs() < 1e-3); // one octave up
    assert!((hz(57) - 220.0).abs() < 1e-3); // one octave down
}

#[test]
fn builds_without_a_device() {
    // make() must never fail the build even with no MIDI hardware.
    let kb = MidiKeyboardType { fp: unit() }.make(&Params::new()).unwrap();
    assert!(kb.is_idle());
}

#[test]
fn midi_messages_are_decoded() {
    let on = NoteEvent { note: 60, velocity: 100, on: true };
    assert_eq!(decode(&[0x90, 60, 100]), Some(on));
    assert_eq!(decode(&[0x9F, 60, 100]), Some(on)); // any channel
    assert_eq!(decode(&[0x90, 60, 0]), Some(NoteEvent { note: 60, velocity: 0, on: false }));
    assert_eq!(decode(&[0x82, 60, 5]), Some(NoteEvent { note: 60, velocity: 5, on: false }));
    assert_eq!(decode(&[0xB0, 60, 5]), None);
    assert_eq!(decode(&[0x90, 60]), None);
    assert_eq!(decode(&[]), None);
}

#[test]
fn a_full_queue_drops_events() {
    let mut keyboard = open(unit());
    let mut inlet = keyboard.take_inlet().unwrap();
    for _ in 0..1024 {
        assert!(inlet.receive(&[0x90, 60, 1]));
    }
    assert!(!inlet.receive(&[0x90, 60, 1]));
}

#[test]
fn ports_are_picked_by_part_of_their_name() {
    let names = vec![Some("Through".to_string()), None, Some("Launchkey MIDI".to_string())];
    let mut wish = Params::new();
    assert_eq!(pick_port(&names, &wish), Some(0));
    assert_eq!(pick_port(&vec![None], &wish), Some(0));
    assert_eq!(pick_port(&vec![], &wish), None);
    wish.insert("port".to_string(), ParamValue::Str("key".to_string()));
    assert_eq!(pick_port(&names, &wish), Some(2));
    wish.insert("port".to_string(), ParamValue::Str(String::new()));
    assert_eq!(pick_port(&names, &wish), Some(0));
    wish.insert("port".to_string(), ParamValue::Str("Oxygen".to_string()));
    assert_eq!(pick_port(&names, &wish), None);
    wish.insert("port".to_string(), ParamValue::Int(2));
    assert_eq!(pick_port(&names, &wish), Some(0));
}

/// A context over a plan of `slots` voices that hand their first source output through.
fn context(slots: usize) -> SourceCtx {
    let plan = VoicedPlan::build(4, &[], 3, &[], slots);
    let mut ctx = SourceCtx::new(plan, SlotManager::new(slots), vec![]);
    ctx.begin(4, 100.0f32.to_bits(), 0.0f64.to_bits());
    ctx
}

#[test]
fn a_retriggered_key_gets_a_new_voice_and_keeps_the_others() {
    let mut ctx = context(3);
    let mut held = HeldVoices::new();
    held.strike(60, 60, 0, &mut ctx);
    held.strike(62, 62, 0, &mut ctx);
    assert!(ctx.is_active(0) && ctx.is_active(1) && !ctx.is_active(2));
    held.strike(60, 60, 0, &mut ctx);
    // The old voice is released but not free yet; the note has moved to slot 2.
    assert!(ctx.is_active(0) && ctx.is_active(1) && ctx.is_active(2));
    let mut alive = vec![true; 3];
    let none: [Const<Unit>; 0] = [];
    ctx.walk(&none, &mut alive);
    assert_eq!(alive, vec![false; 3]);
    assert!(!ctx.is_active(0) && ctx.is_active(1) && ctx.is_active(2));
    // With every slot in use a further note is dropped.
    held.strike(64, 64, 0, &mut ctx);
    assert!(ctx.is_active(0));
    held.strike(65, 65, 0, &mut ctx);
    held.lift(65, &mut ctx);
    held.end_all(&mut ctx);
    assert!(held.is_empty());
    ctx.walk(&none, &mut alive);
    assert!(!ctx.is_active(0) && !ctx.is_active(1) && !ctx.is_active(2));
    assert_eq!(ctx.max_voices(), 3);
    assert_eq!(ctx.frames(), 4);
}

#[test]
fn slots_are_claimed_released_and_reaped() {
    let mut slots = SlotManager::new(2);
    assert_eq!(slots.claim(), Some(0));
    assert_eq!(slots.claim(), Some(1));
    assert_eq!(slots.claim(), None);
    slots.release(0);
    assert!(slots.is_active(0));
    // Still sounding: not freed. A held slot is never freed.
    assert_eq!(slots.reap(&vec![true, false]), Vec::<usize>::new());
    assert_eq!(slots.reap(&vec![false, false]), vec![0]);
    assert!(!slots.is_active(0) && slots.is_active(1));
    assert_eq!(slots.claim(), Some(0));
}

#[test]
fn slots_are_active_from_claim_to_reap() {
    let mut slots = SlotManager::new(3);
    let mut active = [false; 3];
    let mut seed: u32 = 1;
    for _ in 0..200 {
        seed = seed.wrapping_mul(1_664_525).wrapping_add(1_013_904_223);
        let slot = (seed >> 16) as usize % 3;
        match (seed >> 24) % 3 {
            0 => match slots.claim() {
                Some(s) => {
                    assert!(!active[s]);
                    active[s] = true;
                }
                None => assert_eq!(active, [true; 3]),
            },
            1 => slots.release(slot),
            _ => {
                for s in slots.reap(&vec![slot == 0, slot == 1, slot == 2]) {
                    assert!(active[s]);
                    active[s] = false;
                }
            }
        }
        for s in 0..3 {
            assert_eq!(slots.is_active(s), active[s]);
        }
    }
    // As many claims succeed as slots are free.
    let free = active.iter().filter(|&&a| !a).count();
    for _ in 0..free {
        assert!(slots.claim().is_some());
    }
    assert_eq!(slots.claim(), None);
}

#[test]
fn a_voice_is_allocated_while_a_slot_is_free() {
    let mut ctx = context(2);
    let first = ctx.allocate().unwrap();
    let second = ctx.allocate().unwrap();
    assert!(first != second);
    assert!(ctx.is_active(first.0) && ctx.is_active(second.0));
    assert_eq!(ctx.allocate(), None);
}

#[test]
fn the_last_event_of_a_note_decides() {
    let on = |note: u8| NoteEvent { note, velocity: 100, on: true };
    let off = |note: u8| NoteEvent { note, velocity: 0, on: false };
    let mut ctx = context(2);
    let mut keyboard = open(unit());
    keyboard.play(&vec![on(60), off(60)], &mut ctx);
    assert!(keyboard.is_idle());
    keyboard.play(&vec![off(62), on(62)], &mut ctx);
    assert!(!keyboard.is_idle());
    // Both voices are taken (one by a released note), so a further note is dropped.
    keyboard.play(&vec![on(64), off(62)], &mut ctx);
    assert!(keyboard.is_idle());
}
