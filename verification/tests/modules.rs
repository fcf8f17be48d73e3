use synth_core::float::FloatOp;
use synth_core::model::{ParamValue, Params};
use synth_core::module::{
    BLANK_ICON, F32, F64, FromParamValue, Inputs, ModuleEntry, ModuleType, Registry,
    SynthModuleParams,
};
use synth_core::modules::adsr_envelope::Adsr;
use synth_core::modules::builtins::Builtin;
use synth_core::modules::const_generator::{Const, ConstParams};
use synth_core::modules::mix::Mix;
use synth_core::modules::mul::Mul;
use synth_core::modules::sawtooth_generator::Sawtooth;
use synth_core::modules::sine_generator::Sine;
use synth_core::modules::square_generator::Square;
use synth_core::modules::{AudioOutput, ConstGenerator, Range, SineGenerator};
use synth_core::plan::{Plan, RecordSpec, Source};
use synth_core::processing::{Module, ModuleCtx, ProcessFn, Tail};

/// Evaluates an operation with the machine's own floating point.
fn native(op: FloatOp) -> u64 {
    match op {
        FloatOp::Add(x, y) => single(f32::from_bits(x) + f32::from_bits(y)),
        FloatOp::Sub(x, y) => single(f32::from_bits(x) - f32::from_bits(y)),
        FloatOp::Mul(x, y) => single(f32::from_bits(x) * f32::from_bits(y)),
        FloatOp::Div(x, y) => single(f32::from_bits(x) / f32::from_bits(y)),
        FloatOp::RemEuclid(x, y) => single(f32::from_bits(x).rem_euclid(f32::from_bits(y))),
        FloatOp::Max(x, y) => single(f32::from_bits(x).max(f32::from_bits(y))),
        FloatOp::Clamp(x, lo, hi) => {
            single(f32::from_bits(x).clamp(f32::from_bits(lo), f32::from_bits(hi)))
        }
        FloatOp::Powf(x, y) => single(f32::from_bits(x).powf(f32::from_bits(y))),
        FloatOp::Sin(x) => single(f32::from_bits(x).sin()),
        FloatOp::Neg(x) => single(-f32::from_bits(x)),
        FloatOp::Lt(x, y) => u64::from(f32::from_bits(x) < f32::from_bits(y)),
        FloatOp::Le(x, y) => u64::from(f32::from_bits(x) <= f32::from_bits(y)),
        FloatOp::DivF64(x, y) => (f64::from_bits(x) / f64::from_bits(y)).to_bits(),
        FloatOp::MulF64(x, y) => (f64::from_bits(x) * f64::from_bits(y)).to_bits(),
        FloatOp::MaxF64(x, y) => f64::from_bits(x).max(f64::from_bits(y)).to_bits(),
        FloatOp::RoundF64(x) => f64::from_bits(x).round().to_bits(),
        FloatOp::U8ToF32(n) => single(n as f32),
        FloatOp::U32ToF32(n) => single(n as f32),
        FloatOp::U64ToF64(n) => (n as f64).to_bits(),
        FloatOp::I64ToF64(n) => (n as f64).to_bits(),
        FloatOp::F32ToF64(x) => (f32::from_bits(x) as f64).to_bits(),
        FloatOp::F64ToF32(x) => single(f64::from_bits(x) as f32),
        FloatOp::F64ToI64(x) => f64::from_bits(x) as i64 as u64,
        FloatOp::F64ToU64(x) => f64::from_bits(x) as u64,
        FloatOp::F32ToU32(x) => u64::from(f32::from_bits(x) as u32),
        FloatOp::F32ToI16(x) => u64::from(f32::from_bits(x) as i16 as u16),
    }
}

/// The bits of a single-precision result.
fn single(x: f32) -> u64 {
    u64::from(x.to_bits())
}

type Unit = fn(FloatOp) -> u64;

fn unit() -> Unit {
    native
}

fn params(pairs: Vec<(&str, ParamValue)>) -> Params {
    let mut p = Params::new();
    for (k, v) in pairs {
        p.insert(k.to_string(), v);
    }
    p
}

fn params_value(v: f32) -> Params {
    params(vec![("value", ParamValue::Float((v as f64).to_bits()))])
}

fn floats(buf: Vec<u32>) -> Vec<f32> {
    buf.into_iter().map(f32::from_bits).collect()
}

fn bits(xs: &[f32]) -> Vec<u32> {
    xs.iter().map(|x| x.to_bits()).collect()
}

fn constant() -> ModuleEntry<Builtin<Unit>> {
    ModuleEntry::of(Builtin::Const(Const { fp: unit() }))
}

fn record(
    entry: &ModuleEntry<Builtin<Unit>>,
    fn_index: u32,
    params: &Params,
    inputs: Vec<Source>,
) -> RecordSpec {
    RecordSpec {
        fn_index,
        state: entry.module.init_state(params),
        params: entry.module.init_params(params),
        inputs,
        num_outputs: 1,
    }
}

/// Build a plan of constant-fed inputs into one module and return its output.
fn run_one(
    entry: &ModuleEntry<Builtin<Unit>>,
    params: &Params,
    inputs: &[f32],
    frames: usize,
) -> Vec<f32> {
    let cst = constant();
    let fns = vec![cst.module, entry.module];
    let mut records: Vec<RecordSpec> = Vec::new();
    let mut srcs = Vec::new();
    for (i, &v) in inputs.iter().enumerate() {
        records.push(record(&cst, 0, &params_value(v), vec![]));
        srcs.push(Source::Port(i, 0));
    }
    records.push(record(entry, 1, params, srcs));
    let target = records.len() - 1;
    let mut plan = Plan::build(frames, &records);
    plan.run(&fns, 100.0f32.to_bits(), 0.0f64.to_bits(), frames);
    floats(plan.buffer_at(plan.output_offset(target, 0), frames))
}

/// const(1) and const(1) feed an oscillator, at sr 8.
fn run_oscillator(osc: ModuleEntry<Builtin<Unit>>) -> Vec<f32> {
    let cst = constant();
    let fns = [cst.module, osc.module];
    let freq = params(vec![("value", ParamValue::Float(1.0f64.to_bits()))]);
    let amp = params(vec![("value", ParamValue::Float(1.0f64.to_bits()))]);
    let records = vec![
        record(&cst, 0, &freq, vec![]),
        record(&cst, 0, &amp, vec![]),
        record(&osc, 1, &Params::new(), vec![Source::Port(0, 0), Source::Port(1, 0)]),
    ];
    let mut plan = Plan::build(8, &records);
    plan.run(&fns, 8.0f32.to_bits(), 0.0f64.to_bits(), 8);
    floats(plan.buffer_at(plan.output_offset(2, 0), 8))
}

#[test]
fn enumerates_builtin_modules_and_sources() {
    let r = Registry::with_builtins(unit(), true);
    let modules = r.module_type_ids();
    let sources = r.source_type_ids();

    // Processing modules show up in module_type_ids, not source_type_ids.
    assert!(modules.contains(&"sine_generator".to_string()));
    assert!(modules.contains(&"mul".to_string()));
    assert!(!modules.contains(&"midi_keyboard".to_string()));

    // Voice sources show up in source_type_ids only.
    assert!(sources.contains(&"midi_keyboard".to_string()));
    assert!(!sources.contains(&"sine_generator".to_string()));
}

#[test]
fn the_registry_has_an_icon_for_every_type() {
    let r = Registry::with_builtins(unit(), true);
    assert_eq!(r.module_type_ids().len(), 8);
    assert_eq!(r.source_type_ids().len(), 2);
    for id in r.module_type_ids().iter().chain(r.source_type_ids().iter()) {
        assert!(r.icon(id).unwrap() != BLANK_ICON);
    }
    assert_eq!(r.icon("nope"), None);
    assert!(r.get("mul").is_some() && r.get("midi_keyboard").is_none());
    assert!(r.source("midi_keyboard").is_some() && r.source("mul").is_none());
    assert!(r.is_source("ansi_keyboard") && !r.is_source("mul"));
}

#[test]
fn adsr_instant_attack_decays_to_sustain() {
    // attack=0, decay=0, sustain=0.5, gate held -> sustain level every sample.
    let adsr = ModuleEntry::of(Builtin::Adsr(Adsr { fp: unit() }));
    let out = run_one(&adsr, &Params::new(), &[1.0, 0.0, 0.0, 0.5, 0.0], 4);
    assert_eq!(out, vec![0.5; 4]);
}

#[test]
fn adsr_goes_through_its_stages() {
    let adsr = Adsr { fp: unit() };
    let mut state = adsr.init_state(&Params::new());
    // 10 Hz: one sample is 0.1 s. Attack 0.2 s, decay 0.2 s to 0.5, release 0.2 s.
    let mut step = |gate: &[f32]| {
        let n = gate.len();
        let mut ctx = ModuleCtx {
            frames: n,
            sample_rate: 10.0f32.to_bits(),
            time: 0,
            inputs: vec![
                bits(gate),
                bits(&vec![0.2; n]),
                bits(&vec![0.2; n]),
                bits(&vec![0.5; n]),
                bits(&vec![0.2; n]),
            ],
            outputs: vec![vec![0; n]],
        };
        let tail = ProcessFn::process(&adsr, &mut state, &vec![], &mut ctx);
        (floats(ctx.outputs.remove(0)), tail)
    };
    let (idle, tail) = step(&[0.0, 0.0]);
    assert_eq!(idle, vec![0.0, 0.0]);
    assert_eq!(tail, Tail::Done);
    let (out, tail) = step(&[1.0; 6]);
    assert_eq!(tail, Tail::Active);
    for (x, y) in out.iter().zip([0.5, 1.0, 0.75, 0.5, 0.5, 0.5]) {
        assert!((x - y).abs() < 1e-6);
    }
    let (out, tail) = step(&[0.0]);
    assert!((out[0] - 0.25).abs() < 1e-6);
    assert_eq!(tail, Tail::Active);
    let (out, tail) = step(&[0.0, 0.0]);
    assert!(out[0].abs() < 1e-6 && out[1] == 0.0);
    assert_eq!(tail, Tail::Done);
}

#[test]
fn descriptor_is_synthesized_from_the_struct() {
    let d = <ConstParams as SynthModuleParams<Unit>>::param_descs();
    assert_eq!(d.len(), 1);
    assert_eq!(d[0].name, "value");
    assert_eq!(d[0].label, "Value");
    assert_eq!(d[0].default, ParamValue::Float(0.0f64.to_bits()));
}

#[test]
fn from_values_reads_the_value_or_falls_back_to_the_declared_default() {
    let fp = unit();
    let mut p = Params::new();
    p.insert("value".into(), ParamValue::Float(2.5f64.to_bits()));
    assert_eq!(f32::from_bits(ConstParams::from_values(&p, &fp).value), 2.5);
    // The single declared default (0.0) fills an absent key: no second copy of the default.
    assert_eq!(f32::from_bits(ConstParams::from_values(&Params::new(), &fp).value), 0.0);
}

#[test]
fn values_are_coerced_to_field_types() {
    let fp = unit();
    let int = ParamValue::Int(3);
    let float = ParamValue::Float((-2.75f64).to_bits());
    let text = ParamValue::Str("x".to_string());
    let toggle = ParamValue::Bool(true);
    assert_eq!(F32::from_param_value(&int, &fp), Some(F32(3.0f32.to_bits())));
    assert_eq!(F64::from_param_value(&float, &fp), Some(F64((-2.75f64).to_bits())));
    assert_eq!(<i64 as FromParamValue<Unit>>::from_param_value(&float, &fp), Some(-2));
    assert_eq!(<i64 as FromParamValue<Unit>>::from_param_value(&toggle, &fp), None);
    assert_eq!(<bool as FromParamValue<Unit>>::from_param_value(&toggle, &fp), Some(true));
    assert_eq!(<bool as FromParamValue<Unit>>::from_param_value(&int, &fp), None);
    assert_eq!(F32::from_param_value(&text, &fp), None);
}

#[test]
fn fills_constant() {
    let mut c = ConstGenerator::new(0.5f32.to_bits());
    let mut ctx = ModuleCtx {
        frames: 4,
        sample_rate: 44100.0f32.to_bits(),
        time: 0.0f64.to_bits(),
        inputs: vec![],
        outputs: vec![bits(&[0.0; 4])],
    };
    assert_eq!(c.process(&mut ctx), Tail::Done);
    assert_eq!(floats(ctx.outputs.remove(0)), vec![0.5; 4]);
}

#[test]
fn mix_sums_any_count() {
    let mix = ModuleEntry::of(Builtin::Mix(Mix { fp: unit() }));
    assert_eq!(run_one(&mix, &Params::new(), &[1.0, 2.0, 3.0], 4), vec![6.0; 4]);
    assert_eq!(run_one(&mix, &Params::new(), &[7.0], 4), vec![7.0; 4]);
    // No inputs connected: silence.
    assert_eq!(run_one(&mix, &Params::new(), &[], 4), vec![0.0; 4]);
}

#[test]
fn mix_declares_one_variadic_input() {
    let mix = Mix { fp: unit() };
    assert!(matches!(mix.describe(&Params::new()).inputs, Inputs::Variadic(_)));
}

#[test]
fn mul_multiplies() {
    let mul = ModuleEntry::of(Builtin::Mul(Mul { fp: unit() }));
    let out = run_one(&mul, &Params::new(), &[3.0, 4.0], 4);
    assert_eq!(out, vec![12.0; 4]);
}

#[test]
fn mul_is_variadic() {
    let mul = ModuleEntry::of(Builtin::Mul(Mul { fp: unit() }));
    // Any number of connected inputs multiply together.
    assert_eq!(run_one(&mul, &Params::new(), &[2.0, 3.0, 4.0], 4), vec![24.0; 4]);
    assert_eq!(run_one(&mul, &Params::new(), &[5.0], 4), vec![5.0; 4]);
}

#[test]
fn mul_declares_one_variadic_input() {
    let mul = Mul { fp: unit() };
    assert!(matches!(mul.describe(&Params::new()).inputs, Inputs::Variadic(_)));
}

#[test]
fn describes_three_inputs() {
    let p = Params::new();
    let range = Range::new(unit());
    assert_eq!(range.describe(&p).inputs.fixed().len(), 3);
}

#[test]
fn range_maps_through_the_plan() {
    let range = ModuleEntry::of(Builtin::Range(Range { fp: unit() }));
    assert_eq!(run_one(&range, &Params::new(), &[-1.0, 10.0, 20.0], 2), vec![10.0; 2]);
    assert_eq!(run_one(&range, &Params::new(), &[0.0, 10.0, 20.0], 2), vec![15.0; 2]);
    assert_eq!(run_one(&range, &Params::new(), &[1.0, 10.0, 20.0], 2), vec![20.0; 2]);
}

#[test]
fn ramps_through_the_plan() {
    // const(freq=1), const(amp=1) feed a saw at sr 8 -> phase advances PI/4 per sample.
    let out = run_oscillator(ModuleEntry::of(Builtin::Sawtooth(Sawtooth { fp: unit() })));
    // Mid-cycle samples (away from the PI / TAU boundaries, which are FP-fragile).
    let eps = 1e-4;
    assert!((out[0] + 0.75).abs() < eps); // phase = PI/4 -> -0.75
    assert!((out[1] + 0.5).abs() < eps); // phase = PI/2 -> -0.5
    assert!((out[5] - 0.5).abs() < eps); // phase = 3PI/2 -> +0.5
    assert!((out[6] - 0.75).abs() < eps); // phase = 7PI/4 -> +0.75
    // Rising ramp within a cycle.
    assert!(out[0] < out[1] && out[1] < out[5] && out[5] < out[6]);
}

#[test]
fn describes_two_inputs() {
    let p = Params::new();
    let sine = Sine { fp: unit() };
    assert_eq!(sine.describe(&p).inputs.fixed().len(), 2);
    assert_eq!(sine.describe(&p).inputs.fixed()[0].name, "frequency");
}

#[test]
fn const_into_sine_through_the_plan() {
    // const(freq=1) and const(amp=1) feed a sine, at sr 8 -> sin advances TAU/8 per sample.
    let out = run_oscillator(ModuleEntry::of(Builtin::Sine(Sine { fp: unit() })));
    let eps = 1e-5;
    assert!((out[1] - 1.0).abs() < eps); // sin(pi/2)
    assert!(out[3].abs() < eps); // sin(pi)
    assert!((out[5] + 1.0).abs() < eps); // sin(3pi/2)
}

#[test]
fn toggles_through_the_plan() {
    // const(freq=1), const(amp=1) feed a square at sr 8 -> phase advances PI/4 per sample.
    let out = run_oscillator(ModuleEntry::of(Builtin::Square(Square { fp: unit() })));
    // First half of the cycle (phase < PI) is high, second half low. Samples 3 and 7 sit on the
    // PI / TAU boundaries (FP-fragile), so assert the unambiguous ones.
    assert_eq!(out[0], 1.0); // PI/4
    assert_eq!(out[1], 1.0); // PI/2
    assert_eq!(out[2], 1.0); // 3PI/4
    assert_eq!(out[4], -1.0); // 5PI/4
    assert_eq!(out[5], -1.0); // 3PI/2
    assert_eq!(out[6], -1.0); // 7PI/4
}

/// Run one block at `sample_rate` with the given frequency/amplitude buffers.
fn run(sine: &mut SineGenerator<Unit>, sample_rate: f32, freq: &[f32], amp: &[f32]) -> Vec<f32> {
    let n = freq.len();
    let mut ctx = ModuleCtx {
        frames: n,
        sample_rate: sample_rate.to_bits(),
        time: 0.0f64.to_bits(),
        inputs: vec![bits(freq), bits(amp)],
        outputs: vec![vec![0; n]],
    };
    let tail = sine.process(&mut ctx);
    assert_eq!(tail, Tail::Done);
    floats(ctx.outputs.remove(SineGenerator::<Unit>::OUT))
}

#[test]
fn produces_sine_at_constant_frequency() {
    // sr 8, 1 Hz => phase advances TAU/8 per sample (increment-then-output).
    let mut sine = SineGenerator::new(unit());
    let out = run(&mut sine, 8.0, &[1.0; 8], &[1.0; 8]);
    let eps = 1e-5;
    assert!((out[1] - 1.0).abs() < eps); // sin(pi/2)
    assert!(out[3].abs() < eps); // sin(pi)
    assert!((out[5] + 1.0).abs() < eps); // sin(3pi/2)
}

#[test]
fn amplitude_scales_per_sample() {
    let mut sine = SineGenerator::new(unit());
    let out = run(&mut sine, 8.0, &[1.0; 4], &[0.0, 0.5, 0.0, 0.0]);
    assert_eq!(out[0], 0.0); // amplitude 0 -> silent
    assert!((out[1] - 0.5).abs() < 1e-5); // sin(pi/2) * 0.5
}

#[test]
fn frequency_controls_rate() {
    // inc = TAU * 25 / 100 = TAU/4 = pi/2 -> first sample is sin(pi/2) = 1.
    let mut sine = SineGenerator::new(unit());
    let out = run(&mut sine, 100.0, &[25.0], &[1.0]);
    assert!((out[0] - 1.0).abs() < 1e-5);
}

#[test]
fn phase_is_retained_across_blocks() {
    // Two 1-sample blocks at 1 Hz / sr 8 must match one 2-sample block.
    let mut a = SineGenerator::new(unit());
    let s0 = run(&mut a, 8.0, &[1.0], &[1.0])[0];
    let s1 = run(&mut a, 8.0, &[1.0], &[1.0])[0];

    let mut b = SineGenerator::new(unit());
    let both = run(&mut b, 8.0, &[1.0, 1.0], &[1.0, 1.0]);

    assert!((s0 - both[0]).abs() < 1e-6);
    assert!((s1 - both[1]).abs() < 1e-6);
}

#[test]
fn modulation_depth_does_not_grow_with_time() {
    // Frequency modulation must integrate, so the per-sample phase step stays bounded by
    // the current frequency no matter how long the oscillator has run. We feed a fixed
    // frequency far into the stream and check the step matches that frequency exactly
    // (a `f * t` oscillator would instead show ever-larger steps).
    let tau = std::f32::consts::TAU;
    let sr = 1000.0;
    let mut sine = SineGenerator::new(unit());
    // Run 100_000 samples at 50 Hz to advance phase well into the stream.
    let _ = run(&mut sine, sr, &vec![50.0; 100_000], &vec![1.0; 100_000]);
    let phase_before = f32::from_bits(sine.phase);
    // One more sample at 50 Hz: the step must be exactly TAU * 50 / 1000.
    let _ = run(&mut sine, sr, &[50.0], &[1.0]);
    let expected_step = tau * 50.0 / sr;
    let step = (f32::from_bits(sine.phase) - phase_before).rem_euclid(tau);
    assert!((step - expected_step).abs() < 1e-3);
}

#[test]
fn a_sine_can_be_rewound() {
    let mut sine = SineGenerator::new(unit());
    let first = run(&mut sine, 8.0, &[1.0; 3], &[1.0; 3]);
    sine.reset();
    assert_eq!(sine.phase, 0);
    assert_eq!(run(&mut sine, 8.0, &[1.0; 3], &[1.0; 3]), first);
    assert_eq!(sine.input_ports(), vec!["frequency", "amplitude"]);
    assert_eq!(sine.output_ports(), vec!["out"]);
}

#[test]
fn a_sink_names_its_channels() {
    let sink = AudioOutput::new(12);
    assert_eq!(sink.channels(), 12);
    let ports = sink.input_ports();
    assert_eq!(ports[0], "ch0");
    assert_eq!(ports[9], "ch9");
    assert_eq!(ports[11], "ch11");
    assert_eq!(sink.output_ports().len(), 0);
    let fp = unit();
    assert_eq!(AudioOutput::from_params(&Params::new(), &fp).unwrap().channels(), 2);
}

#[test]
fn an_envelope_stays_between_zero_and_one() {
    let adsr = Adsr { fp: unit() };
    let values = [-1.0f32, 0.0, 1e-30, 0.01, 0.3, 1.0, 5.0, f32::INFINITY];
    let n = 24;
    for &a in &values {
        for &d in &values {
            for &sustain in &values {
                for &r in &values {
                    let mut state = adsr.init_state(&Params::new());
                    let gate: Vec<f32> = (0..n).map(|i| f32::from(i % 12 < 7)).collect();
                    let mut ctx = ModuleCtx {
                        frames: n,
                        sample_rate: 10.0f32.to_bits(),
                        time: 0,
                        inputs: vec![
                            bits(&gate),
                            bits(&vec![a; n]),
                            bits(&vec![d; n]),
                            bits(&vec![sustain; n]),
                            bits(&vec![r; n]),
                        ],
                        outputs: vec![vec![0; n]],
                    };
                    ProcessFn::process(&adsr, &mut state, &vec![], &mut ctx);
                    for x in floats(ctx.outputs.remove(0)) {
                        assert!((0.0..=1.0).contains(&x));
                    }
                }
            }
        }
    }
}

#[test]
fn the_machine_orders_and_rounds_as_numbers_do() {
    let values = [
        f32::NEG_INFINITY, -2.0, -0.5, -1e-40, -0.0, 0.0, 1e-40, 0.1, 0.3, 0.99999994, 1.0, 1.0000001,
        3.0, f32::MAX, f32::INFINITY, f32::NAN,
    ];
    let eval = |op: FloatOp| f32::from_bits(native(op) as u32);
    let in_unit = |x: f32| 0.0 <= x && x <= 1.0;
    for &a in &values {
        let x = a.to_bits();
        let (zero, one) = (0.0f32.to_bits(), 1.0f32.to_bits());
        assert!(a.is_nan() || in_unit(eval(FloatOp::Clamp(x, zero, one))));
        assert!(0.0 <= eval(FloatOp::Max(x, zero)));
        assert!(!in_unit(a) || in_unit(eval(FloatOp::Sub(one, x))));
        assert!(!(1.0 <= a) || in_unit(eval(FloatOp::Div(one, x))));
        for &b in &values {
            let y = b.to_bits();
            assert!(!(0.0 <= a && 0.0 <= b) || a <= eval(FloatOp::Add(x, y)));
            assert!(!(in_unit(a) && 0.0 <= b) || eval(FloatOp::Sub(x, y)) <= a);
            assert!(!(in_unit(a) && in_unit(b)) || in_unit(eval(FloatOp::Mul(x, y))));
            assert!(!(in_unit(a) && 0.0 < b) || 0.0 <= eval(FloatOp::Div(x, y)));
        }
    }
}
