use synth_core::float::FloatOp;
use synth_core::model::{Endpoint, Node, ParamValue, Params, Patch, Wire};
use synth_core::module::{
    BLANK_ICON, Icon, Inputs, ModuleDesc, ModuleType, OsPermission, PolyphonicModule, PortDesc,
    Registry, SourceCtx, SourceError, SourceType, VoiceId,
};
use synth_core::modules::adsr_envelope::Adsr;
use synth_core::modules::ansi_keyboard::Key;
use synth_core::modules::builtins::{Builtin, Keyboard};
use synth_core::modules::const_generator::Const;
use synth_core::modules::mix::Mix;
use synth_core::modules::mul::Mul;
use synth_core::plan_engine::{EngineError, PlanEngine};
use synth_core::processing::{ModuleCtx, ProcessFn, Tail};
use synth_core::table::Table;

/// Evaluates an operation with the machine's own floating point.
fn native(op: FloatOp) -> u64 {
    match op {
        FloatOp::Add(x, y) => single(f32::from_bits(x) + f32::from_bits(y)),
        FloatOp::Sub(x, y) => single(f32::from_bits(x) - f32::from_bits(y)),
        FloatOp::Mul(x, y) => single(f32::from_bits(x) * f32::from_bits(y)),
        FloatOp::Div(x, y) => single(f32::from_bits(x) / f32::from_bits(y)),
        FloatOp::RemEuclid(x, y) => single(f32::from_bits(x).rem_euclid(f32::from_bits(y))),
        FloatOp::Max(x, y) => single(f32::from_bits(x).max(f32::from_bits(y))),
        FloatOp::Clamp(x, lo, hi) => {
            single(f32::from_bits(x).clamp(f32::from_bits(lo), f32::from_bits(hi)))
        }
        FloatOp::Powf(x, y) => single(f32::from_bits(x).powf(f32::from_bits(y))),
        FloatOp::Sin(x) => single(f32::from_bits(x).sin()),
        FloatOp::Neg(x) => single(-f32::from_bits(x)),
        FloatOp::Lt(x, y) => u64::from(f32::from_bits(x) < f32::from_bits(y)),
        FloatOp::Le(x, y) => u64::from(f32::from_bits(x) <= f32::from_bits(y)),
        FloatOp::DivF64(x, y) => (f64::from_bits(x) / f64::from_bits(y)).to_bits(),
        FloatOp::MulF64(x, y) => (f64::from_bits(x) * f64::from_bits(y)).to_bits(),
        FloatOp::MaxF64(x, y) => f64::from_bits(x).max(f64::from_bits(y)).to_bits(),
        FloatOp::RoundF64(x) => f64::from_bits(x).round().to_bits(),
        FloatOp::U8ToF32(n) => single(n as f32),
        FloatOp::U32ToF32(n) => single(n as f32),
        FloatOp::U64ToF64(n) => (n as f64).to_bits(),
        FloatOp::I64ToF64(n) => (n as f64).to_bits(),
        FloatOp::F32ToF64(x) => (f32::from_bits(x) as f64).to_bits(),
        FloatOp::F64ToF32(x) => single(f64::from_bits(x) as f32),
        FloatOp::F64ToI64(x) => f64::from_bits(x) as i64 as u64,
        FloatOp::F64ToU64(x) => f64::from_bits(x) as u64,
        FloatOp::F32ToU32(x) => u64::from(f32::from_bits(x) as u32),
        FloatOp::F32ToI16(x) => u64::from(f32::from_bits(x) as i16 as u16),
    }
}

/// The bits of a single-precision result.
fn single(x: f32) -> u64 {
    u64::from(x.to_bits())
}

fn params(pairs: Vec<(&str, ParamValue)>) -> Params {
    let mut p = Params::new();
    for (k, v) in pairs {
        p.insert(k.to_string(), v);
    }
    p
}

fn float(x: f64) -> ParamValue {
    ParamValue::Float(x.to_bits())
}

fn node(id: &str, ty: &str, pairs: Vec<(&str, ParamValue)>) -> Node {
    Node { id: id.to_string(), ty: ty.to_string(), params: params(pairs) }
}

fn wire(from: (&str, &str), to: (&str, &str)) -> Wire {
    Wire {
        from: Endpoint(from.0.to_string(), from.1.to_string()),
        to: Endpoint(to.0.to_string(), to.1.to_string()),
    }
}

fn patch(nodes: Vec<Node>, wires: Vec<Wire>) -> Patch {
    Patch { version: 1, prefabs: vec![], nodes, wires, layout: Table::new() }
}

fn output(sample_rate: i64, channels: i64) -> Node {
    node(
        "out",
        "audio_output",
        vec![
            ("sample_rate", ParamValue::Int(sample_rate)),
            ("channels", ParamValue::Int(channels)),
        ],
    )
}

fn silence(len: usize) -> Vec<u32> {
    vec![0.0f32.to_bits(); len]
}

fn at(device: &[u32], i: usize) -> f32 {
    f32::from_bits(device[i])
}

type Unit = fn(FloatOp) -> u64;

fn unit() -> Unit {
    native
}

fn tone_nodes() -> Vec<Node> {
    vec![
        node("freq", "const_generator", vec![("value", float(1.0))]),
        node("amp", "const_generator", vec![("value", float(0.5))]),
        node("osc", "sine_generator", vec![]),
        output(4, 2),
    ]
}

fn tone_wires() -> Vec<Wire> {
    vec![
        wire(("freq", "out"), ("osc", "frequency")),
        wire(("amp", "out"), ("osc", "amplitude")),
        wire(("osc", "out"), ("out", "ch0")),
        wire(("osc", "out"), ("out", "ch1")),
    ]
}

#[test]
fn plan_engine_renders_pure_tone_to_stereo() {
    let patch = patch(tone_nodes(), tone_wires());
    let registry = Registry::with_builtins(unit(), true);
    let mut engine = PlanEngine::build(&patch, &registry, 64, unit()).unwrap();
    assert_eq!(engine.channels(), 2);
    assert_eq!(f32::from_bits(engine.sample_rate()), 4.0);

    let frames = 4;
    let mut device = silence(frames * 2);
    engine.process_block(&mut device, frames);

    for i in 0..frames {
        assert_eq!(device[i * 2], device[i * 2 + 1]);
    }
    let eps = 1e-5;
    assert!((at(&device, 0) - 0.5).abs() < eps);
    assert!(at(&device, 2).abs() < eps);
    assert!((at(&device, 4) + 0.5).abs() < eps);
    assert!(at(&device, 6).abs() < eps);
}

#[test]
fn plan_engine_missing_audio_output_errors() {
    let patch = patch(vec![node("a", "sine_generator", vec![])], vec![]);
    let result = PlanEngine::build(&patch, &Registry::with_builtins(unit(), true), 64, unit());
    assert!(matches!(result, Err(EngineError::NoAudioOutput)));
}

#[test]
fn unconnected_channel_is_silent() {
    let mut wires = tone_wires();
    wires.pop();
    let patch = patch(tone_nodes(), wires);
    let registry = Registry::with_builtins(unit(), true);
    let mut engine = PlanEngine::build(&patch, &registry, 64, unit()).unwrap();
    let mut device = silence(4 * 2);
    engine.process_block(&mut device, 4);
    for i in 0..4 {
        assert_eq!(at(&device, i * 2 + 1), 0.0);
    }
    assert!((at(&device, 0) - 0.5).abs() < 1e-5);
}

/// A scripted voice source: plays `pitch` (held) on block 0, releases on block `release_at`.
struct ScriptKeys {
    block: u64,
    release_at: u64,
    pitch: f32,
    voice: Option<VoiceId>,
}

impl PolyphonicModule for ScriptKeys {
    fn process(&mut self, ctx: &mut SourceCtx) -> Tail {
        if self.block == 0 {
            if let Some(v) = ctx.allocate() {
                self.voice = Some(v);
            }
        }
        if let Some(v) = self.voice {
            let frames = ctx.frames;
            let gate: f32 = if self.block >= self.release_at { 0.0 } else { 1.0 };
            ctx.voice_output(v, 0, &vec![self.pitch.to_bits(); frames]); // pitch
            ctx.voice_output(v, 1, &vec![gate.to_bits(); frames]); // gate
            if self.block == self.release_at {
                ctx.release(v);
            }
        }
        self.block += 1;
        Tail::Active
    }
}

struct ScriptKeysType;

impl SourceType for ScriptKeysType {
    type Module = ScriptKeys;

    fn describe(&self, _p: &Params) -> ModuleDesc {
        ModuleDesc {
            inputs: Inputs::Fixed(vec![]),
            outputs: vec![PortDesc::sample("pitch"), PortDesc::sample("gate")],
            params: vec![],
        }
    }

    fn make(&self, p: &Params) -> Result<ScriptKeys, SourceError> {
        if p.contains_key("broken") {
            return Err(SourceError::Other("no keys today".to_string()));
        }
        Ok(ScriptKeys { block: 0, release_at: 2, pitch: 0.25, voice: None })
    }

    fn icon(&self) -> Icon {
        BLANK_ICON
    }
}

/// Modules of the tests with a voice source.
#[derive(Clone, Copy)]
enum TestModule {
    /// `out = a * b`.
    MulAB,
    Builtin(Builtin<Unit>),
}

impl ProcessFn for TestModule {
    fn process(&self, state: &mut Vec<u8>, params: &Vec<u8>, ctx: &mut ModuleCtx) -> Tail {
        match self {
            TestModule::MulAB => {
                for i in 0..ctx.frames {
                    let a = f32::from_bits(ctx.input(0)[i]);
                    let b = f32::from_bits(ctx.input(1)[i]);
                    ctx.output(0)[i] = (a * b).to_bits();
                }
                Tail::Done
            }
            TestModule::Builtin(m) => m.process(state, params, ctx),
        }
    }
}

impl ModuleType for TestModule {
    fn describe(&self, params: &Params) -> ModuleDesc {
        match self {
            TestModule::MulAB => ModuleDesc {
                inputs: Inputs::Fixed(vec![PortDesc::sample("a"), PortDesc::sample("b")]),
                outputs: vec![PortDesc::sample("out")],
                params: vec![],
            },
            TestModule::Builtin(m) => m.describe(params),
        }
    }

    fn init_state(&self, params: &Params) -> Vec<u8> {
        match self {
            TestModule::MulAB => vec![],
            TestModule::Builtin(m) => m.init_state(params),
        }
    }

    fn init_params(&self, params: &Params) -> Vec<u8> {
        match self {
            TestModule::MulAB => vec![],
            TestModule::Builtin(m) => m.init_params(params),
        }
    }

    fn icon(&self) -> Icon {
        BLANK_ICON
    }
}

/// The registry of the tests with a scripted voice source: `mul` stands for a product of two named
/// inputs here, not for the built-in one, whose port takes any number of wires and which is tested
/// on its own.
fn poly_registry() -> Registry<TestModule, ScriptKeysType> {
    let mut r = Registry::new();
    r.register("mul", TestModule::MulAB);
    r.register("const_generator", TestModule::Builtin(Builtin::Const(Const { fp: unit() })));
    r.register("adsr_envelope", TestModule::Builtin(Builtin::Adsr(Adsr { fp: unit() })));
    r.register("mix", TestModule::Builtin(Builtin::Mix(Mix { fp: unit() })));
    r.register_source("script_keys", ScriptKeysType);
    r
}

fn vca_patch() -> Patch {
    patch(
        vec![
            node("keys", "script_keys", vec![]),
            node("vca", "mul", vec![]),
            node(
                "out",
                "audio_output",
                vec![("sample_rate", ParamValue::Int(100)), ("channels", ParamValue::Int(1))],
            ),
        ],
        vec![
            wire(("keys", "pitch"), ("vca", "a")),
            wire(("keys", "gate"), ("vca", "b")),
            wire(("vca", "out"), ("out", "ch0")),
        ],
    )
}

#[test]
fn poly_voice_plays_then_frees_after_release() {
    // keys -> mul(pitch * gate) -> audio. gate held blocks 0..1, released at block 2.
    let mut engine = PlanEngine::build(&vca_patch(), &poly_registry(), 64, unit()).unwrap();
    assert_eq!(engine.channels(), 1);

    let frames = 4;
    let mut device = silence(frames);

    // Block 0: voice active, gate=1 -> 0.25 * 1.
    engine.process_block(&mut device, frames);
    assert!((at(&device, 0) - 0.25).abs() < 1e-6);

    // Block 1: still held.
    engine.process_block(&mut device, frames);
    assert!((at(&device, 0) - 0.25).abs() < 1e-6);

    // Block 2: released, gate=0 -> 0. mul is stateless (Tail::Done) so the slot frees.
    engine.process_block(&mut device, frames);
    assert!(at(&device, 0).abs() < 1e-6);

    // Block 3: slot freed; source no longer writes -> silence.
    engine.process_block(&mut device, frames);
    assert!(at(&device, 0).abs() < 1e-6);
}

#[test]
fn the_host_reaches_the_voice_source() {
    let mut engine = PlanEngine::build(&vca_patch(), &poly_registry(), 64, unit()).unwrap();
    engine.source_mut().unwrap().pitch = 0.75;
    let mut device = silence(4);
    engine.process_block(&mut device, 4);
    assert_eq!(at(&device, 3), 0.75);
    assert_eq!(engine.source_mut().unwrap().block, 1);

    let mono = patch(tone_nodes(), tone_wires());
    let registry = Registry::with_builtins(unit(), true);
    let mut engine = PlanEngine::build(&mono, &registry, 64, unit()).unwrap();
    assert!(engine.source_mut().is_none());
}

#[test]
fn a_shared_output_is_heard_once_and_a_bare_source_output_not_at_all() {
    let nodes = vec![
        node("keys", "script_keys", vec![]),
        node("vca", "mul", vec![]),
        node("c", "const_generator", vec![("value", float(0.5))]),
        output(100, 3),
    ];
    let wires = vec![
        wire(("keys", "pitch"), ("vca", "a")),
        wire(("c", "out"), ("vca", "b")),
        wire(("vca", "out"), ("out", "ch0")),
        wire(("c", "out"), ("out", "ch1")),
        wire(("keys", "pitch"), ("out", "ch2")),
    ];
    let mut engine =
        PlanEngine::build(&patch(nodes, wires), &poly_registry(), 8, unit()).unwrap();
    let mut device = silence(6);
    engine.process_block(&mut device, 2);
    assert_eq!(at(&device, 0), 0.125); // 0.25 * 0.5
    assert_eq!(at(&device, 1), 0.5);
    assert_eq!(at(&device, 2), 0.0);
}

#[test]
fn variadic_port_with_no_wires_is_silent() {
    let patch = patch(
        vec![node("m", "mul", vec![]), output(100, 1)],
        vec![wire(("m", "out"), ("out", "ch0"))],
    );
    let registry = Registry::with_builtins(unit(), true);
    let mut engine = PlanEngine::build(&patch, &registry, 8, unit()).unwrap();
    let mut device = vec![9.0f32.to_bits(); 4];
    engine.process_block(&mut device, 4);
    assert_eq!(device, silence(4));
}

#[test]
fn a_variadic_port_takes_any_number_of_wires() {
    let patch = patch(
        vec![
            node("a", "const_generator", vec![("value", float(2.0))]),
            node("b", "const_generator", vec![("value", ParamValue::Int(3))]),
            node("m", "mul", vec![]),
            output(100, 1),
        ],
        vec![
            wire(("a", "out"), ("m", "in")),
            wire(("b", "out"), ("m", "in")),
            wire(("a", "out"), ("m", "in")),
            wire(("m", "out"), ("out", "ch0")),
        ],
    );
    let registry = Registry::with_builtins(unit(), true);
    let mut engine = PlanEngine::build(&patch, &registry, 8, unit()).unwrap();
    let mut device = silence(1);
    engine.process_block(&mut device, 1);
    assert_eq!(at(&device, 0), 12.0);
}

#[test]
fn the_last_wire_to_a_fixed_port_counts() {
    let patch = patch(
        vec![
            node("a", "const_generator", vec![("value", float(2.0))]),
            node("b", "const_generator", vec![("value", float(3.0))]),
            output(100, 1),
        ],
        vec![wire(("a", "out"), ("out", "ch0")), wire(("b", "out"), ("out", "ch0"))],
    );
    let registry = Registry::with_builtins(unit(), true);
    let mut engine = PlanEngine::build(&patch, &registry, 8, unit()).unwrap();
    let mut device = silence(1);
    engine.process_block(&mut device, 1);
    assert_eq!(at(&device, 0), 3.0);
}

#[test]
fn a_block_longer_than_the_capacity_is_cut_down() {
    let patch = patch(
        vec![node("a", "const_generator", vec![("value", float(2.0))]), output(100, 1)],
        vec![wire(("a", "out"), ("out", "ch0"))],
    );
    let registry = Registry::with_builtins(unit(), true);
    let mut engine = PlanEngine::build(&patch, &registry, 2, unit()).unwrap();
    let mut device = silence(4);
    engine.process_block(&mut device, 4);
    assert_eq!(device.iter().map(|&s| f32::from_bits(s)).collect::<Vec<_>>(), [2.0, 2.0, 0.0, 0.0]);
}

#[test]
fn the_sink_has_defaults() {
    let bare = patch(vec![node("out", "audio_output", vec![])], vec![]);
    let registry = Registry::with_builtins(unit(), true);
    let engine = PlanEngine::build(&bare, &registry, 8, unit()).unwrap();
    assert_eq!(engine.channels(), 2);
    assert_eq!(f32::from_bits(engine.sample_rate()), 44100.0);

    let low = patch(
        vec![node(
            "out",
            "audio_output",
            vec![("channels", ParamValue::Int(-3)), ("sample_rate", float(48000.0))],
        )],
        vec![],
    );
    let engine = PlanEngine::build(&low, &registry, 8, unit()).unwrap();
    assert_eq!(engine.channels(), 1);
    assert_eq!(f32::from_bits(engine.sample_rate()), 48000.0);
}

#[test]
fn plan_errors_say_what_is_wrong() {
    let registry = Registry::with_builtins(unit(), true);

    let unknown = patch(vec![node("a", "nope", vec![]), output(4, 1)], vec![]);
    let e = PlanEngine::build(&unknown, &registry, 8, unit()).err().unwrap();
    assert_eq!(e.message(), "node 'a': unknown module type 'nope'");

    let bad_node = patch(vec![output(4, 1)], vec![wire(("x", "out"), ("out", "ch0"))]);
    let e = PlanEngine::build(&bad_node, &registry, 8, unit()).err().unwrap();
    assert_eq!(e.message(), "wire references unknown node 'x'");

    let bad_port = patch(
        vec![node("s", "sine_generator", vec![]), output(4, 1)],
        vec![wire(("s", "side"), ("out", "ch0"))],
    );
    let e = PlanEngine::build(&bad_port, &registry, 8, unit()).err().unwrap();
    assert_eq!(e.message(), "node 's' has no port 'side'");

    let looped = patch(
        vec![node("m", "mul", vec![]), node("n", "mix", vec![]), output(4, 1)],
        vec![wire(("m", "out"), ("n", "in")), wire(("n", "out"), ("m", "in"))],
    );
    let e = PlanEngine::build(&looped, &registry, 8, unit()).err().unwrap();
    assert!(matches!(e, EngineError::Cycle));

    let two = patch(
        vec![
            node("k1", "midi_keyboard", vec![]),
            node("k2", "midi_keyboard", vec![]),
            output(4, 1),
        ],
        vec![],
    );
    let e = PlanEngine::build(&two, &registry, 8, unit()).err().unwrap();
    assert!(matches!(e, EngineError::MultipleSources));
    assert_eq!(e.message(), "patch has more than one voice source (not yet supported)");

    let big = patch(
        vec![node("a", "const_generator", vec![("value", float(1.0))]), output(4, 1)],
        vec![],
    );
    let e = PlanEngine::build(&big, &registry, 1 << 40, unit()).err().unwrap();
    assert!(matches!(e, EngineError::TooLarge));
    assert_eq!(e.message(), "patch is too large for one plan");

    let broken = patch(
        vec![node("keys", "script_keys", vec![("broken", ParamValue::Bool(true))]), output(4, 1)],
        vec![],
    );
    let e = PlanEngine::build(&broken, &poly_registry(), 8, unit()).err().unwrap();
    assert_eq!(e.message(), "no keys today");

    let denied = patch(
        vec![
            node("keys", "ansi_keyboard", vec![("toggle", ParamValue::Bool(false))]),
            output(4, 1),
        ],
        vec![],
    );
    let e = PlanEngine::build(&denied, &Registry::with_builtins(unit(), false), 8, unit());
    assert!(matches!(
        e.err(),
        Some(EngineError::Source(SourceError::PermissionDenied(OsPermission::Accessibility)))
    ));
}

#[test]
fn later_nodes_take_over_an_id() {
    let patch = patch(
        vec![
            node("a", "const_generator", vec![("value", float(1.0))]),
            node("a", "const_generator", vec![("value", float(2.0))]),
            output(4, 1),
        ],
        vec![wire(("a", "out"), ("out", "ch0"))],
    );
    let registry = Registry::with_builtins(unit(), true);
    let mut engine = PlanEngine::build(&patch, &registry, 8, unit()).unwrap();
    let mut device = silence(1);
    engine.process_block(&mut device, 1);
    assert_eq!(at(&device, 0), 2.0);
}

#[test]
fn midi_notes_travel_from_the_inlet_to_the_device() {
    let patch = patch(
        vec![node("keys", "midi_keyboard", vec![]), node("m", "mix", vec![]), output(100, 1)],
        vec![wire(("keys", "velocity"), ("m", "in")), wire(("m", "out"), ("out", "ch0"))],
    );
    let registry = Registry::with_builtins(unit(), true);
    let mut engine = PlanEngine::build(&patch, &registry, 8, unit()).unwrap();
    let mut inlet = match engine.source_mut() {
        Some(Keyboard::Midi(k)) => k.take_inlet().unwrap(),
        _ => panic!("a MIDI keyboard"),
    };
    let mut device = silence(4);
    engine.process_block(&mut device, 4);
    assert_eq!(device, silence(4));

    // Two notes at full velocity: both voices are summed.
    assert!(inlet.receive(&[0x90, 69, 127]));
    assert!(inlet.receive(&[0x91, 72, 127]));
    assert!(!inlet.receive(&[0xB0, 1, 1]));
    assert!(!inlet.receive(&[0x90, 69]));
    engine.process_block(&mut device, 4);
    assert_eq!(at(&device, 0), 2.0);

    // One comes up; mix has no tail, so its voice is freed at once.
    assert!(inlet.receive(&[0x80, 69, 0]));
    engine.process_block(&mut device, 4);
    assert_eq!(at(&device, 0), 1.0);
    match engine.source_mut() {
        Some(Keyboard::Midi(k)) => {
            assert!(!k.is_idle());
            assert!(k.take_inlet().is_none());
        }
        _ => panic!("a MIDI keyboard"),
    }
}

#[test]
fn ansi_keys_travel_from_the_poll_to_the_device() {
    let patch = patch(
        vec![
            node("keys", "ansi_keyboard", vec![("toggle", ParamValue::Bool(true))]),
            node("m", "mix", vec![]),
            output(100, 1),
        ],
        vec![wire(("keys", "pitch"), ("m", "in")), wire(("m", "out"), ("out", "ch0"))],
    );
    let registry = Registry::with_builtins(unit(), true);
    let mut engine = PlanEngine::build(&patch, &registry, 8, unit()).unwrap();
    let mut device = silence(1);
    let polls: Vec<(Vec<Key>, bool, f32)> = vec![
        (vec![Key::H], false, 0.0),                     // off at first
        (vec![Key::H, Key::Grave], true, 0.0),          // turned on; H was down before
        (vec![], true, 0.0),
        (vec![Key::H], true, 440.0),                    // A4
        (vec![Key::H, Key::LShift], true, 440.0),       // a held note keeps its pitch
        (vec![Key::LShift], true, 0.0),                 // up: mix has no tail, the slot is freed
        (vec![Key::LShift, Key::H], true, 880.0),       // shifted up
        (vec![Key::Grave], false, 0.0),                 // off: everything is released
        (vec![], false, 0.0),
    ];
    for (keys, enabled, hz) in polls {
        match engine.source_mut() {
            Some(Keyboard::Ansi(k)) => k.poll(keys),
            _ => panic!("an ANSI keyboard"),
        }
        engine.process_block(&mut device, 1);
        match engine.source_mut() {
            Some(Keyboard::Ansi(k)) => {
                assert_eq!(k.is_enabled(), enabled);
                assert_eq!(k.wants_quiet(), enabled);
            }
            _ => panic!("an ANSI keyboard"),
        }
        assert!((at(&device, 0) - hz).abs() < 1e-2, "{} vs {}", at(&device, 0), hz);
    }
}

#[test]
fn a_toggle_param_is_required() {
    let patch = patch(vec![node("keys", "ansi_keyboard", vec![]), output(100, 1)], vec![]);
    let registry = Registry::with_builtins(unit(), true);
    let e = PlanEngine::build(&patch, &registry, 8, unit()).err().unwrap();
    assert!(matches!(e, EngineError::Source(SourceError::Other(_))));
}

#[test]
fn a_source_in_the_place_of_the_sink_runs_unheard() {
    let mut registry = poly_registry();
    registry.register_source("audio_output", ScriptKeysType);
    let nodes = |sink: Node| vec![node("c", "const_generator", vec![("value", float(0.25))]), sink];
    let wires = || vec![wire(("c", "out"), ("out", "ch0"))];
    let unheard = patch(nodes(output(100, 1)), wires());
    let mut engine = PlanEngine::build(&unheard, &registry, 64, unit()).unwrap();
    for block in 1..5 {
        let mut device = silence(2);
        engine.process_block(&mut device, 2);
        assert_eq!(at(&device, 0), 0.25);
        assert_eq!(at(&device, 1), 0.25);
        assert_eq!(engine.source_mut().unwrap().block, block);
    }
    // It is made like any other source, so it can fail like any other.
    let broken = node("out", "audio_output", vec![("broken", ParamValue::Bool(true))]);
    assert!(matches!(
        PlanEngine::build(&patch(nodes(broken), wires()), &registry, 64, unit()).err(),
        Some(EngineError::Source(SourceError::Other(_)))
    ));
    // With another source in the patch there are two.
    assert!(matches!(
        PlanEngine::build(&vca_patch(), &registry, 64, unit()).err(),
        Some(EngineError::MultipleSources)
    ));
}

#[test]
fn a_voice_through_the_built_in_product_plays_then_frees_after_release() {
    let mut registry = poly_registry();
    registry.register("mul", TestModule::Builtin(Builtin::Mul(Mul { fp: unit() })));
    let patch = patch(
        vec![node("keys", "script_keys", vec![]), node("vca", "mul", vec![]), output(100, 1)],
        vec![
            wire(("keys", "pitch"), ("vca", "in")),
            wire(("keys", "gate"), ("vca", "in")),
            wire(("vca", "out"), ("out", "ch0")),
        ],
    );
    let mut engine = PlanEngine::build(&patch, &registry, 64, unit()).unwrap();
    for expected in [0.25, 0.25, 0.0, 0.0] {
        let mut device = silence(4);
        engine.process_block(&mut device, 4);
        for i in 0..4 {
            assert_eq!(at(&device, i), expected);
        }
    }
}
