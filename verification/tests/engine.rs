use synth_core::engine::{Engine, EngineError};
use synth_core::float::FloatOp;
use synth_core::model::{Endpoint, Node, ParamValue, Params, Patch, Wire};
use synth_core::processing::{Module, ModuleCtx, PrepareCfg, Tail};
use synth_core::registry::{BuiltinFactory, BuiltinModule, Factory, Registry};
use synth_core::table::Table;
use synth_core::wav::{Rendering, WavError, pcm_sample, total_frames};

/// Evaluates an operation with the machine's own floating point.
fn native(op: FloatOp) -> u64 {
    match op {
        FloatOp::Add(x, y) => single(f32::from_bits(x) + f32::from_bits(y)),
        FloatOp::Sub(x, y) => single(f32::from_bits(x) - f32::from_bits(y)),
        FloatOp::Mul(x, y) => single(f32::from_bits(x) * f32::from_bits(y)),
        FloatOp::Div(x, y) => single(f32::from_bits(x) / f32::from_bits(y)),
        FloatOp::RemEuclid(x, y) => single(f32::from_bits(x).rem_euclid(f32::from_bits(y))),
        FloatOp::Max(x, y) => single(f32::from_bits(x).max(f32::from_bits(y))),
        FloatOp::Clamp(x, lo, hi) => {
            single(f32::from_bits(x).clamp(f32::from_bits(lo), f32::from_bits(hi)))
        }
        FloatOp::Powf(x, y) => single(f32::from_bits(x).powf(f32::from_bits(y))),
        FloatOp::Sin(x) => single(f32::from_bits(x).sin()),
        FloatOp::Neg(x) => single(-f32::from_bits(x)),
        FloatOp::Lt(x, y) => u64::from(f32::from_bits(x) < f32::from_bits(y)),
        FloatOp::Le(x, y) => u64::from(f32::from_bits(x) <= f32::from_bits(y)),
        FloatOp::DivF64(x, y) => (f64::from_bits(x) / f64::from_bits(y)).to_bits(),
        FloatOp::MulF64(x, y) => (f64::from_bits(x) * f64::from_bits(y)).to_bits(),
        FloatOp::MaxF64(x, y) => f64::from_bits(x).max(f64::from_bits(y)).to_bits(),
        FloatOp::RoundF64(x) => f64::from_bits(x).round().to_bits(),
        FloatOp::U8ToF32(n) => single(n as f32),
        FloatOp::U32ToF32(n) => single(n as f32),
        FloatOp::U64ToF64(n) => (n as f64).to_bits(),
        FloatOp::I64ToF64(n) => (n as f64).to_bits(),
        FloatOp::F32ToF64(x) => (f32::from_bits(x) as f64).to_bits(),
        FloatOp::F64ToF32(x) => single(f64::from_bits(x) as f32),
        FloatOp::F64ToI64(x) => f64::from_bits(x) as i64 as u64,
        FloatOp::F64ToU64(x) => f64::from_bits(x) as u64,
        FloatOp::F32ToU32(x) => u64::from(f32::from_bits(x) as u32),
        FloatOp::F32ToI16(x) => u64::from(f32::from_bits(x) as i16 as u16),
    }
}

/// The bits of a single-precision result.
fn single(x: f32) -> u64 {
    u64::from(x.to_bits())
}

fn params(pairs: Vec<(&str, ParamValue)>) -> Params {
    let mut p = Params::new();
    for (k, v) in pairs {
        p.insert(k.to_string(), v);
    }
    p
}

fn float(x: f64) -> ParamValue {
    ParamValue::Float(x.to_bits())
}

fn node(id: &str, ty: &str, pairs: Vec<(&str, ParamValue)>) -> Node {
    Node { id: id.to_string(), ty: ty.to_string(), params: params(pairs) }
}

fn wire(from: (&str, &str), to: (&str, &str)) -> Wire {
    Wire {
        from: Endpoint(from.0.to_string(), from.1.to_string()),
        to: Endpoint(to.0.to_string(), to.1.to_string()),
    }
}

fn patch(nodes: Vec<Node>, wires: Vec<Wire>) -> Patch {
    Patch { version: 1, prefabs: vec![], nodes, wires, layout: Table::new() }
}

fn output(sample_rate: i64, channels: i64) -> Node {
    node(
        "out",
        "audio_output",
        vec![
            ("sample_rate", ParamValue::Int(sample_rate)),
            ("channels", ParamValue::Int(channels)),
        ],
    )
}

fn silence(len: usize) -> Vec<u32> {
    vec![0.0f32.to_bits(); len]
}

fn at(device: &[u32], i: usize) -> f32 {
    f32::from_bits(device[i])
}

/// freq and amp into a sine, the sine into every channel.
fn pure_tone(freq: f64, amp: f64, sample_rate: i64) -> Patch {
    patch(
        vec![
            node("freq", "const_generator", vec![("value", float(freq))]),
            node("amp", "const_generator", vec![("value", float(amp))]),
            node("osc", "sine_generator", vec![]),
            output(sample_rate, 2),
        ],
        vec![
            wire(("freq", "out"), ("osc", "frequency")),
            wire(("amp", "out"), ("osc", "amplitude")),
            wire(("osc", "out"), ("out", "ch0")),
            wire(("osc", "out"), ("out", "ch1")),
        ],
    )
}

/// Modules of these tests, beside the built-in ones.
enum TestModule {
    Builtin(BuiltinModule<Unit>),
    /// Emits the current block time (seconds) on its output.
    TimeProbe,
    /// A sine whose phase is read off the clock.
    ClockSine,
}

impl Module for TestModule {
    fn prepare(&mut self, cfg: &PrepareCfg) {
        if let TestModule::Builtin(m) = self {
            m.prepare(cfg);
        }
    }

    fn reset(&mut self) {
        if let TestModule::Builtin(m) = self {
            m.reset();
        }
    }

    fn input_ports(&self) -> Vec<String> {
        match self {
            TestModule::Builtin(m) => m.input_ports(),
            TestModule::TimeProbe => vec![],
            TestModule::ClockSine => vec!["frequency".to_string(), "amplitude".to_string()],
        }
    }

    fn output_ports(&self) -> Vec<String> {
        match self {
            TestModule::Builtin(m) => m.output_ports(),
            _ => vec!["out".to_string()],
        }
    }

    fn process(&mut self, ctx: &mut ModuleCtx) -> Tail {
        match self {
            TestModule::Builtin(m) => m.process(ctx),
            TestModule::TimeProbe => {
                let t = (f64::from_bits(ctx.time) as f32).to_bits();
                for i in 0..ctx.frames {
                    ctx.outputs[0][i] = t;
                }
                Tail::Done
            }
            TestModule::ClockSine => {
                let rate = f32::from_bits(ctx.sample_rate);
                let start = f64::from_bits(ctx.time) as f32;
                for i in 0..ctx.frames {
                    let t = start + i as f32 / rate;
                    let freq = f32::from_bits(ctx.inputs[0][i]);
                    let amp = f32::from_bits(ctx.inputs[1][i]);
                    let sample = (std::f32::consts::TAU * freq * t).sin() * amp;
                    ctx.outputs[0][i] = sample.to_bits();
                }
                Tail::Done
            }
        }
    }
}

enum TestFactory {
    Builtin(BuiltinFactory<Unit>),
    TimeProbe,
    ClockSine,
}

impl Factory for TestFactory {
    type Module = TestModule;

    fn make(&self, params: &Params) -> Result<TestModule, String> {
        match self {
            TestFactory::Builtin(f) => f.make(params).map(TestModule::Builtin),
            TestFactory::TimeProbe => Ok(TestModule::TimeProbe),
            TestFactory::ClockSine => Ok(TestModule::ClockSine),
        }
    }
}

type Unit = fn(FloatOp) -> u64;

fn unit() -> Unit {
    native
}

/// The registry of the tests that read exact samples off the clock: `sine_generator` stands for a
/// sine of the block's time here, not for the built-in one, which keeps a phase and is tested on
/// its own.
fn test_registry() -> Registry<TestFactory> {
    let mut r = Registry::new();
    r.register("const_generator", TestFactory::Builtin(BuiltinFactory::Const(unit())));
    r.register("audio_output", TestFactory::Builtin(BuiltinFactory::Output(unit())));
    r.register("sine_generator", TestFactory::ClockSine);
    r.register("time_probe", TestFactory::TimeProbe);
    r
}

#[test]
fn engine_renders_pure_tone_to_stereo() {
    let patch = pure_tone(1.0, 0.5, 4);
    let mut engine = Engine::build(&patch, &test_registry(), 64, unit()).unwrap();
    assert_eq!(engine.channels(), 2);
    assert_eq!(f32::from_bits(engine.sample_rate()), 4.0);

    let frames = 4;
    let mut device = silence(frames * 2);
    engine.process_block(&mut device, frames);

    // Both channels carry the same signal (fan-out).
    for i in 0..frames {
        assert_eq!(device[i * 2], device[i * 2 + 1]);
    }

    // sr=4, freq=1, amp 0.5, time-based phase = 2*pi*(i/4):
    // i0: sin(0)=0, i1: sin(pi/2)*0.5=0.5, i2: sin(pi)=0, i3: sin(3pi/2)*0.5=-0.5.
    let eps = 1e-5;
    assert!(at(&device, 0).abs() < eps);
    assert!((at(&device, 2) - 0.5).abs() < eps);
    assert!(at(&device, 4).abs() < eps);
    assert!((at(&device, 6) + 0.5).abs() < eps);
}

#[test]
fn engine_missing_audio_output_errors() {
    let patch = patch(vec![node("a", "sine_generator", vec![])], vec![]);
    let result = Engine::build(&patch, &Registry::with_builtins(unit()), 64, unit());
    assert!(matches!(result, Err(EngineError::NoAudioOutput)));
}

#[test]
fn time_advances_per_block() {
    let patch = patch(
        vec![node("t", "time_probe", vec![]), output(100, 1)],
        vec![wire(("t", "out"), ("out", "ch0"))],
    );
    let mut engine = Engine::build(&patch, &test_registry(), 64, unit()).unwrap();

    let frames = 10;
    let mut device = silence(frames);
    engine.process_block(&mut device, frames);
    assert_eq!(at(&device, 0), 0.0); // first block starts at t = 0

    engine.process_block(&mut device, frames);
    assert!((at(&device, 0) - 0.1).abs() < 1e-6); // 10 frames / 100 Hz = 0.1 s
}

#[test]
fn builtin_sine_accumulates_its_phase() {
    // The phase advances before each sample: pi/2, pi, 3pi/2, 2pi.
    let patch = pure_tone(1.0, 0.5, 4);
    let mut engine = Engine::build(&patch, &Registry::with_builtins(unit()), 64, unit()).unwrap();
    let mut device = silence(8);
    engine.process_block(&mut device, 4);
    let eps = 1e-5;
    assert!((at(&device, 0) - 0.5).abs() < eps);
    assert!(at(&device, 2).abs() < eps);
    assert!((at(&device, 4) + 0.5).abs() < eps);
    assert!(at(&device, 6).abs() < eps);
}

#[test]
fn range_maps_bipolar_input() {
    let patch = patch(
        vec![
            node("x", "const_generator", vec![("value", float(0.5))]),
            node("lo", "const_generator", vec![("value", float(10.0))]),
            node("hi", "const_generator", vec![("value", float(20.0))]),
            node("r", "range", vec![]),
            output(100, 1),
        ],
        vec![
            wire(("x", "out"), ("r", "in")),
            wire(("lo", "out"), ("r", "low")),
            wire(("hi", "out"), ("r", "high")),
            wire(("r", "out"), ("out", "ch0")),
        ],
    );
    let mut engine = Engine::build(&patch, &Registry::with_builtins(unit()), 64, unit()).unwrap();
    let mut device = silence(3);
    engine.process_block(&mut device, 3);
    assert_eq!(at(&device, 0), 17.5); // 10 + 1.5 * 0.5 * 10
}

#[test]
fn graph_errors_come_in_order_and_say_what_is_wrong() {
    let registry = Registry::with_builtins(unit());
    let unknown = patch(vec![node("a", "nope", vec![])], vec![]);
    let e = Engine::build(&unknown, &registry, 64, unit()).err().unwrap();
    assert_eq!(e.message(), "node 'a': unknown module type 'nope'");

    let no_value = patch(vec![node("c", "const_generator", vec![]), output(4, 1)], vec![]);
    let e = Engine::build(&no_value, &registry, 64, unit()).err().unwrap();
    assert_eq!(e.message(), "node 'c': const_generator requires a numeric `value` param");

    let no_channels = patch(vec![output(4, 0)], vec![]);
    let e = Engine::build(&no_channels, &registry, 64, unit()).err().unwrap();
    assert_eq!(e.message(), "node 'out': audio_output `channels` must be >= 1");

    let bad_node = patch(vec![output(4, 1)], vec![wire(("x", "out"), ("out", "ch0"))]);
    let e = Engine::build(&bad_node, &registry, 64, unit()).err().unwrap();
    assert_eq!(e.message(), "wire references unknown node 'x'");

    let bad_port = patch(
        vec![node("r", "range", vec![]), output(4, 1)],
        vec![wire(("r", "out"), ("out", "ch1"))],
    );
    let e = Engine::build(&bad_port, &registry, 64, unit()).err().unwrap();
    assert_eq!(e.message(), "node 'out' has no port 'ch1'");

    let looped = patch(
        vec![node("r", "range", vec![])],
        vec![wire(("r", "out"), ("r", "in"))],
    );
    let e = Engine::build(&looped, &registry, 64, unit()).err().unwrap();
    assert!(matches!(e, EngineError::Cycle));
    assert_eq!(e.message(), "patch graph has a cycle (feedback is not yet supported)");

    let e = Engine::build(&patch(vec![], vec![]), &registry, 64, unit()).err().unwrap();
    assert_eq!(e.message(), "patch has no audio_output node");
}

#[test]
fn an_unwired_channel_of_the_graph_is_silent() {
    let patch = patch(
        vec![node("c", "const_generator", vec![("value", float(0.5))]), output(4, 2)],
        vec![wire(("c", "out"), ("out", "ch1"))],
    );
    let mut engine = Engine::build(&patch, &Registry::with_builtins(unit()), 64, unit()).unwrap();
    let mut device = vec![9.0f32.to_bits(); 7];
    engine.process_block(&mut device, 3);
    for i in 0..3 {
        assert_eq!(at(&device, i * 2), 0.0);
        assert_eq!(at(&device, i * 2 + 1), 0.5);
    }
    assert_eq!(at(&device, 6), 9.0); // behind the block
}

#[test]
fn renders_pure_tone_wav() {
    let patch = pure_tone(440.0, 0.5, 8000);
    let mut engine =
        Engine::build(&patch, &Registry::with_builtins(unit()), 16384, unit()).unwrap();
    let fp = unit();

    let spec = hound::WavSpec {
        channels: engine.channels() as u16,
        sample_rate: f32::from_bits(engine.sample_rate()) as u32,
        bits_per_sample: 16,
        sample_format: hound::SampleFormat::Int,
    };
    let mut bytes = std::io::Cursor::new(Vec::new());
    let mut writer = hound::WavWriter::new(&mut bytes, spec).unwrap();
    let mut rendering = Rendering::new(&engine, &fp, 0.1f64.to_bits());
    while let Some(block) = rendering.next_block(&mut engine, &fp) {
        for sample in block {
            writer.write_sample(sample).unwrap();
        }
    }
    writer.finalize().unwrap();

    bytes.set_position(0);
    let reader = hound::WavReader::new(bytes).unwrap();
    assert_eq!(reader.spec().sample_rate, 8000);
    assert_eq!(reader.spec().channels, 2);
    // 0.1 s * 8000 Hz = 800 frames * 2 channels = 1600 samples.
    assert_eq!(reader.len(), 1600);

    let samples: Vec<i16> = reader.into_samples::<i16>().map(|s| s.unwrap()).collect();
    assert!(samples.iter().any(|&s| s != 0)); // produced sound
}

#[test]
fn a_rendering_comes_in_blocks_that_add_up() {
    let patch = pure_tone(440.0, 0.5, 1000);
    let mut engine = Engine::build(&patch, &Registry::with_builtins(unit()), 4096, unit()).unwrap();
    let fp = unit();
    let mut rendering = Rendering::new(&engine, &fp, 2.5f64.to_bits());
    let mut lens = vec![];
    while let Some(block) = rendering.next_block(&mut engine, &fp) {
        lens.push(block.len());
    }
    assert_eq!(lens, vec![2048, 2048, 904]); // 1024 + 1024 + 452 frames of 2 channels
    assert!(rendering.next_block(&mut engine, &fp).is_none());
}

#[test]
fn pcm_samples_are_clamped_and_scaled() {
    let fp = unit();
    assert_eq!(pcm_sample(&fp, 0.0f32.to_bits()), 0);
    assert_eq!(pcm_sample(&fp, 1.0f32.to_bits()), 32767);
    assert_eq!(pcm_sample(&fp, (-1.0f32).to_bits()), -32767);
    assert_eq!(pcm_sample(&fp, 5.0f32.to_bits()), 32767);
    assert_eq!(pcm_sample(&fp, (-5.0f32).to_bits()), -32767);
    assert_eq!(pcm_sample(&fp, 0.5f32.to_bits()), 16383);
    assert_eq!(total_frames(&fp, (-1.0f64).to_bits(), 8000.0f32.to_bits()), 0);
    assert_eq!(total_frames(&fp, 1.00006f64.to_bits(), 8000.0f32.to_bits()), 8000);
    assert_eq!(WavError("disk full".to_string()).message(), "wav render error: disk full");
}

/// All samples of a rendering, and the lengths of its blocks in frames of two channels.
fn rendered(capacity: usize, seconds: f64) -> (Vec<i16>, Vec<usize>) {
    let patch = pure_tone(7.0, 0.5, 1000);
    let registry = Registry::with_builtins(unit());
    let mut engine = Engine::build(&patch, &registry, capacity, unit()).unwrap();
    let fp = unit();
    let mut rendering = Rendering::new(&engine, &fp, seconds.to_bits());
    let (mut samples, mut lens) = (vec![], vec![]);
    while let Some(block) = rendering.next_block(&mut engine, &fp) {
        lens.push(block.len() / 2);
        samples.extend(block);
    }
    (samples, lens)
}

#[test]
fn a_small_engine_renders_the_same_stream() {
    let (samples, lens) = rendered(4096, 0.01);
    assert_eq!(lens, vec![10]);
    assert!(samples.iter().any(|&s| s != samples[0]));
    for (capacity, expected) in [
        (1, vec![1; 10]),
        (3, vec![3, 3, 3, 1]),
        (10, vec![10]),
        (11, vec![10]),
    ] {
        assert_eq!(rendered(capacity, 0.01), (samples.clone(), expected));
    }
}

#[test]
fn a_rendering_is_what_the_engine_plays_block_by_block() {
    let patch = pure_tone(7.0, 0.5, 1000);
    let registry = Registry::with_builtins(unit());
    let mut engine = Engine::build(&patch, &registry, 3, unit()).unwrap();
    assert_eq!(engine.capacity(), 3);
    let fp = unit();
    let mut expected = vec![];
    for frames in [3, 3, 3, 1] {
        let mut device = vec![0u32; frames * 2];
        engine.process_block(&mut device, frames);
        expected.extend(device.iter().map(|&x| pcm_sample(&fp, x)));
    }
    assert_eq!(engine.elapsed(), 10);
    assert_eq!(rendered(3, 0.01).0, expected);
}

#[test]
fn an_engine_that_renders_nothing_is_silent() {
    assert_eq!(rendered(0, 0.01), (vec![0; 20], vec![10]));
    assert_eq!(rendered(5, -1.0), (vec![], vec![]));
}
