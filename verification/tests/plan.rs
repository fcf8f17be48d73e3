use synth_core::plan::{Plan, RecordSpec, Source, VoiceRecordSpec, VoiceSource, VoicedPlan, state_bytes};
use synth_core::plan::plan_fits;
use synth_core::processing::{ModuleCtx, ProcessFn, Tail};
use synth_core::voiced_plan::voiced_plan_fits;

/// What a record of these plans does with its one word of state.
#[derive(Clone, Copy)]
enum Behavior {
    /// Fills the output with the state.
    Const,
    /// Scales the input by the state.
    Gain,
    /// Counts calls in its state and stays alive.
    Count,
}

impl ProcessFn for Behavior {
    fn process(&self, state: &mut Vec<u8>, _params: &Vec<u8>, ctx: &mut ModuleCtx) -> Tail {
        let word = u32::from_le_bytes([state[0], state[1], state[2], state[3]]);
        let value = f32::from_bits(word);
        let frames = ctx.frames;
        match self {
            Behavior::Const => {
                for i in 0..frames {
                    ctx.output(0)[i] = value.to_bits();
                }
                Tail::Done
            }
            Behavior::Gain => {
                for i in 0..frames {
                    let x = f32::from_bits(ctx.input(0)[i]);
                    ctx.output(0)[i] = (x * value).to_bits();
                }
                Tail::Done
            }
            Behavior::Count => {
                let next = word + 1;
                state[..4].copy_from_slice(&next.to_le_bytes());
                for i in 0..frames {
                    ctx.output(0)[i] = next;
                }
                Tail::Active
            }
        }
    }
}

fn state(value: f32) -> Vec<u8> {
    state_bytes(&[value.to_bits()])
}

fn record(fn_index: u32, value: f32, inputs: Vec<Source>) -> RecordSpec {
    RecordSpec { fn_index, state: state(value), params: vec![], inputs, num_outputs: 1 }
}

fn voice_record(fn_index: u32, value: f32, inputs: Vec<VoiceSource>) -> VoiceRecordSpec {
    VoiceRecordSpec { fn_index, state: state(value), params: vec![], inputs, num_outputs: 1 }
}

fn floats(buf: Vec<u32>) -> Vec<f32> {
    buf.into_iter().map(f32::from_bits).collect()
}

fn filled(value: f32, frames: usize) -> Vec<u32> {
    vec![value.to_bits(); frames]
}

fn rate() -> u32 {
    44100.0f32.to_bits()
}

fn start() -> u64 {
    0.0f64.to_bits()
}

#[test]
fn const_record_fills_output() {
    let fns = [Behavior::Const];
    let records = vec![record(0, 0.5, vec![])];
    let mut plan = Plan::build(4, &records);
    plan.run(&fns, rate(), start(), 4);
    assert_eq!(floats(plan.buffer_at(plan.output_offset(0, 0), 4)), vec![0.5; 4]);
}

#[test]
fn input_resolves_to_producer_output() {
    let fns = [Behavior::Const, Behavior::Gain];
    let records = vec![record(0, 2.0, vec![]), record(1, 3.0, vec![Source::Port(0, 0)])];
    let mut plan = Plan::build(8, &records);
    plan.run(&fns, rate(), start(), 8);
    assert_eq!(floats(plan.buffer_at(plan.output_offset(1, 0), 8)), vec![6.0; 8]); // 2.0 * 3.0
}

#[test]
fn voices_are_isolated_and_summed_over_active_slots() {
    // Each voice runs one `gain` record reading its slot's source output (port 0) times 2.
    let fns = [Behavior::Gain];
    let voice = vec![voice_record(0, 2.0, vec![VoiceSource::SourceOut(0)])];
    let mut plan = VoicedPlan::build(4, &[], 1, &voice, 3);
    let mut alive = vec![false; 3];

    // Activate two voices with different source pitches.
    plan.set_slot_active(0, true);
    plan.set_slot_active(1, true);
    plan.source_output_mut(0, 0, &filled(2.0, 4));
    plan.source_output_mut(1, 0, &filled(3.0, 4));

    plan.run(&fns, rate(), start(), 4, &mut alive);

    // Isolation: each slot's record sees only its own source output.
    assert_eq!(floats(plan.voice_output(0, 0, 0, 4)), vec![4.0; 4]); // 2.0 * 2
    assert_eq!(floats(plan.voice_output(1, 0, 0, 4)), vec![6.0; 4]); // 3.0 * 2

    // Sum over active slots = 4 + 6 = 10. Slot 2 is disabled (not summed).
    let sum: f32 = (0..3)
        .map(|s| floats(plan.voice_output(s, 0, 0, 4))[0])
        .zip([true, true, false])
        .map(|(v, active)| if active { v } else { 0.0 })
        .sum();
    assert_eq!(sum, 10.0);

    // Disable slot 1: the walker jumps it, so its output is stale but not summed; slot 0 runs.
    plan.set_slot_active(1, false);
    plan.source_output_mut(0, 0, &filled(5.0, 4));
    plan.run(&fns, rate(), start(), 4, &mut alive);
    assert_eq!(floats(plan.voice_output(0, 0, 0, 4)), vec![10.0; 4]); // 5.0 * 2, slot 0 re-ran
}

#[test]
fn voice_chain_reads_same_slot_upstream() {
    // Two voice records form a chain: A = source*2, B = A*3. With records grouped by module
    // (A0 A1 A2, then B0 B1 B2), voice K's B must read voice K's A, never another voice's.
    let fns = [Behavior::Gain];
    let voice = vec![
        voice_record(0, 2.0, vec![VoiceSource::SourceOut(0)]),
        voice_record(0, 3.0, vec![VoiceSource::Voice(0, 0)]), // reads record A's output, same slot
    ];
    let mut plan = VoicedPlan::build(4, &[], 1, &voice, 3);
    let mut alive = vec![false; 3];

    plan.set_slot_active(0, true);
    plan.set_slot_active(1, true);
    plan.source_output_mut(0, 0, &filled(1.0, 4));
    plan.source_output_mut(1, 0, &filled(10.0, 4));

    plan.run(&fns, rate(), start(), 4, &mut alive);

    // A: 1*2=2 and 10*2=20.  B: reads same slot's A, *3 => 6 and 60 (no cross-voice bleed).
    assert_eq!(floats(plan.voice_output(0, 0, 0, 4)), vec![2.0; 4]);
    assert_eq!(floats(plan.voice_output(1, 0, 0, 4)), vec![20.0; 4]);
    assert_eq!(floats(plan.voice_output(0, 1, 0, 4)), vec![6.0; 4]);
    assert_eq!(floats(plan.voice_output(1, 1, 0, 4)), vec![60.0; 4]);
}

#[test]
fn unconnected_input_reads_zero() {
    let fns = [Behavior::Gain];
    let records = vec![record(0, 3.0, vec![Source::Zero])];
    let mut plan = Plan::build(4, &records);
    plan.run(&fns, rate(), start(), 4);
    assert_eq!(floats(plan.buffer_at(plan.output_offset(0, 0), 4)), vec![0.0; 4]); // 0 * 3 = 0
}

#[test]
fn unconnected_input_stays_zero_over_many_ticks() {
    let fns = [Behavior::Const, Behavior::Gain];
    let records = vec![record(0, 9.0, vec![]), record(1, 3.0, vec![Source::Zero])];
    let mut plan = Plan::build(4, &records);
    for _ in 0..5 {
        plan.run(&fns, rate(), start(), 4);
        assert_eq!(floats(plan.buffer_at(plan.output_offset(1, 0), 4)), vec![0.0; 4]);
    }
}

#[test]
fn output_buffers_are_aligned_and_apart() {
    let records = vec![record(0, 1.0, vec![]), record(0, 1.0, vec![]), record(0, 1.0, vec![])];
    let plan = Plan::build(5, &records);
    assert_eq!(plan.block_size(), 5);
    let offsets: Vec<u32> = (0..3).map(|r| plan.output_offset(r, 0)).collect();
    for off in &offsets {
        assert_eq!(off % 64, 0);
    }
    assert!(offsets[0] + 20 <= offsets[1] && offsets[1] + 20 <= offsets[2]);
}

#[test]
fn a_tick_longer_than_the_block_is_cut_down() {
    let fns = [Behavior::Const];
    let mut plan = Plan::build(4, &[record(0, 0.5, vec![])]);
    plan.run(&fns, rate(), start(), 100);
    assert_eq!(floats(plan.buffer_at(plan.output_offset(0, 0), 4)), vec![0.5; 4]);
}

#[test]
fn a_short_tick_leaves_the_rest_of_the_buffer() {
    let fns = [Behavior::Const];
    let mut plan = Plan::build(4, &[record(0, 0.5, vec![])]);
    plan.run(&fns, rate(), start(), 2);
    assert_eq!(floats(plan.buffer_at(plan.output_offset(0, 0), 4)), vec![0.5, 0.5, 0.0, 0.0]);
}

#[test]
fn state_is_kept_from_tick_to_tick() {
    let fns = [Behavior::Count];
    let spec = RecordSpec {
        fn_index: 0,
        state: state_bytes(&[41]),
        params: vec![],
        inputs: vec![],
        num_outputs: 1,
    };
    let mut plan = Plan::build(1, &[spec]);
    plan.run(&fns, rate(), start(), 1);
    assert_eq!(plan.buffer_at(plan.output_offset(0, 0), 1), vec![42]);
    plan.run(&fns, rate(), start(), 1);
    assert_eq!(plan.buffer_at(plan.output_offset(0, 0), 1), vec![43]);
}

#[test]
fn slots_start_disabled_and_only_running_slots_are_alive() {
    let fns = [Behavior::Count];
    let voice = vec![voice_record(0, 0.0, vec![])];
    let mut plan = VoicedPlan::build(2, &[], 0, &voice, 3);
    assert_eq!(plan.block_size(), 2);
    assert_eq!(plan.max_voices(), 3);
    let mut alive = vec![true; 3];
    plan.run(&fns, rate(), start(), 2, &mut alive);
    assert_eq!(alive, vec![false; 3]);
    assert_eq!(plan.voice_output(1, 0, 0, 2), vec![0, 0]);
    plan.set_slot_active(1, true);
    plan.run(&fns, rate(), start(), 2, &mut alive);
    assert_eq!(alive, vec![false, true, false]);
    assert_eq!(plan.voice_output(1, 0, 0, 2), vec![1, 1]);
    assert_eq!(plan.voice_output(0, 0, 0, 2), vec![0, 0]);
    // A new state takes effect in its own slot only.
    plan.set_slot_active(2, true);
    plan.set_voice_state(2, 0, &state_bytes(&[10]));
    plan.run(&fns, rate(), start(), 2, &mut alive);
    assert_eq!(plan.voice_output(1, 0, 0, 2), vec![2, 2]);
    assert_eq!(plan.voice_output(2, 0, 0, 2), vec![11, 11]);
}

#[test]
fn shared_records_feed_every_voice() {
    let fns = [Behavior::Const, Behavior::Gain];
    let shared = vec![record(0, 7.0, vec![])];
    let voice = vec![voice_record(1, 2.0, vec![VoiceSource::Shared(0, 0)])];
    let mut plan = VoicedPlan::build(2, &shared, 1, &voice, 2);
    let mut alive = vec![false; 2];
    plan.set_slot_active(0, true);
    plan.set_slot_active(1, true);
    plan.source_output_mut(0, 0, &filled(5.0, 2));
    plan.clear_source_outputs(0, 2);
    plan.run(&fns, rate(), start(), 2, &mut alive);
    assert_eq!(floats(plan.shared_output(0, 0, 2)), vec![7.0; 2]);
    assert_eq!(floats(plan.voice_output(0, 0, 0, 2)), vec![14.0; 2]);
    assert_eq!(floats(plan.voice_output(1, 0, 0, 2)), vec![14.0; 2]);
}

#[test]
fn plans_past_the_reach_of_offsets_do_not_fit() {
    assert!(plan_fits(64, &[record(0, 1.0, vec![])]));
    assert!(!plan_fits(usize::MAX, &[record(0, 1.0, vec![])]));
    assert!(!plan_fits(1 << 29, &[record(0, 1.0, vec![]), record(0, 1.0, vec![])]));
    let voice = vec![voice_record(0, 1.0, vec![])];
    assert!(voiced_plan_fits(64, &[], 2, &voice, 16));
    assert!(!voiced_plan_fits(64, &[], 2, &voice, usize::MAX));
}

#[test]
fn state_bytes_are_little_endian_words() {
    assert_eq!(state_bytes(&[0x0403_0201, 5]), vec![1, 2, 3, 4, 5, 0, 0, 0]);
    assert_eq!(state_bytes(&[]), Vec::<u8>::new());
}

#[test]
fn toggling_a_voice_off_and_on_changes_nothing() {
    let fns = [Behavior::Count];
    let voice = vec![voice_record(0, 0.0, vec![]), voice_record(0, 0.0, vec![])];
    let mut plan = VoicedPlan::build(2, &[], 0, &voice, 2);
    let mut alive = vec![false; 2];
    plan.set_slot_active(0, true);
    plan.set_slot_active(1, true);
    plan.run(&fns, rate(), start(), 2, &mut alive);
    plan.set_slot_active(0, false);
    plan.set_slot_active(0, false);
    plan.set_slot_active(0, true);
    plan.set_slot_active(0, true);
    assert_eq!(plan.voice_output(0, 0, 0, 2), vec![1, 1]);
    plan.run(&fns, rate(), start(), 2, &mut alive);
    assert_eq!(alive, vec![true; 2]);
    for slot in 0..2 {
        for record in 0..2 {
            assert_eq!(plan.voice_output(slot, record, 0, 2), vec![2, 2]);
        }
    }
}
