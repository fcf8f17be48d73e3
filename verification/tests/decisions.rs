use synth_core::audio::{AudioError, frames_in, pick_buffer_size};
use synth_core::expand::{FieldCode, FieldDecl, Target, code_of, field_code, impl_code, target_fault};
use synth_core::float::FloatOp;
use synth_core::graph::topo_sort;
use synth_core::model::{Endpoint, ParamValue, Params, PatchError, default_version};
use synth_core::module::SynthModuleParams;
use synth_core::params::{AttrKey, FieldKind, attr_key, field_kind, humanize, with_first};
use synth_core::table::Table;

/// Evaluates an operation with the machine's own floating point.
fn native(op: FloatOp) -> u64 {
    match op {
        FloatOp::Add(x, y) => single(f32::from_bits(x) + f32::from_bits(y)),
        FloatOp::Sub(x, y) => single(f32::from_bits(x) - f32::from_bits(y)),
        FloatOp::Mul(x, y) => single(f32::from_bits(x) * f32::from_bits(y)),
        FloatOp::Div(x, y) => single(f32::from_bits(x) / f32::from_bits(y)),
        FloatOp::RemEuclid(x, y) => single(f32::from_bits(x).rem_euclid(f32::from_bits(y))),
        FloatOp::Max(x, y) => single(f32::from_bits(x).max(f32::from_bits(y))),
        FloatOp::Clamp(x, lo, hi) => {
            single(f32::from_bits(x).clamp(f32::from_bits(lo), f32::from_bits(hi)))
        }
        FloatOp::Powf(x, y) => single(f32::from_bits(x).powf(f32::from_bits(y))),
        FloatOp::Sin(x) => single(f32::from_bits(x).sin()),
        FloatOp::Neg(x) => single(-f32::from_bits(x)),
        FloatOp::Lt(x, y) => u64::from(f32::from_bits(x) < f32::from_bits(y)),
        FloatOp::Le(x, y) => u64::from(f32::from_bits(x) <= f32::from_bits(y)),
        FloatOp::DivF64(x, y) => (f64::from_bits(x) / f64::from_bits(y)).to_bits(),
        FloatOp::MulF64(x, y) => (f64::from_bits(x) * f64::from_bits(y)).to_bits(),
        FloatOp::MaxF64(x, y) => f64::from_bits(x).max(f64::from_bits(y)).to_bits(),
        FloatOp::RoundF64(x) => f64::from_bits(x).round().to_bits(),
        FloatOp::U8ToF32(n) => single(n as f32),
        FloatOp::U32ToF32(n) => single(n as f32),
        FloatOp::U64ToF64(n) => (n as f64).to_bits(),
        FloatOp::I64ToF64(n) => (n as f64).to_bits(),
        FloatOp::F32ToF64(x) => (f32::from_bits(x) as f64).to_bits(),
        FloatOp::F64ToF32(x) => single(f64::from_bits(x) as f32),
        FloatOp::F64ToI64(x) => f64::from_bits(x) as i64 as u64,
        FloatOp::F64ToU64(x) => f64::from_bits(x) as u64,
        FloatOp::F32ToU32(x) => u64::from(f32::from_bits(x) as u32),
        FloatOp::F32ToI16(x) => u64::from(f32::from_bits(x) as i16 as u16),
    }
}

/// The bits of a single-precision result.
fn single(x: f32) -> u64 {
    u64::from(x.to_bits())
}

#[test]
fn playback_errors_have_messages() {
    assert_eq!(AudioError::NoDevice.message(), "no default audio output device");
    assert_eq!(
        AudioError::Build("busy".to_string()).message(),
        "failed to build audio stream: busy"
    );
    assert_eq!(
        AudioError::Play("gone".to_string()).message(),
        "failed to start audio stream: gone"
    );
}

#[test]
fn the_buffer_size_is_clamped_to_the_first_known_range() {
    let fp = native;
    // 20 ms at 48000 Hz are 960 frames.
    assert_eq!(pick_buffer_size(&vec![Some((16, 4096))], 48000, &fp), Some(960));
    assert_eq!(pick_buffer_size(&vec![None, Some((1024, 4096)), Some((1, 2))], 48000, &fp), Some(1024));
    assert_eq!(pick_buffer_size(&vec![Some((16, 512))], 48000, &fp), Some(512));
    assert_eq!(pick_buffer_size(&vec![None], 48000, &fp), None);
    assert_eq!(pick_buffer_size(&vec![], 48000, &fp), None);
    assert_eq!(frames_in(9, 2), 4);
    assert_eq!(frames_in(9, 0), 0);
}

#[test]
fn field_types_pick_kinds() {
    assert_eq!(field_kind(Some("f32")), Ok(FieldKind::Float));
    assert_eq!(field_kind(Some("f64")), Ok(FieldKind::Float));
    assert_eq!(field_kind(Some("i64")), Ok(FieldKind::Int));
    assert_eq!(field_kind(Some("bool")), Ok(FieldKind::Bool));
    assert_eq!(
        field_kind(Some("String")).unwrap_err(),
        "SynthModuleParams: unsupported field type `String` (expected f32/f64/i64/bool)"
    );
    assert_eq!(
        field_kind(None).unwrap_err(),
        "SynthModuleParams: unsupported field type `<non-path>` (expected f32/f64/i64/bool)"
    );
}

#[test]
fn attribute_keys_are_looked_up() {
    assert_eq!(attr_key(Some("label")), Ok(AttrKey::Label));
    assert_eq!(attr_key(Some("default")), Ok(AttrKey::Default));
    assert_eq!(attr_key(Some("min")), Ok(AttrKey::Min));
    assert_eq!(attr_key(Some("max")), Ok(AttrKey::Max));
    let unknown = "unknown `param` attribute key (expected label/default/min/max)";
    assert_eq!(attr_key(Some("step")).unwrap_err(), unknown);
    assert_eq!(attr_key(None).unwrap_err(), unknown);
}

fn field(name: &str, ty: &str) -> FieldDecl {
    FieldDecl::new(name.to_string(), ty.to_string(), Some(ty.to_string()))
}

#[test]
fn a_struct_of_params_gets_its_impl() {
    let mut gain = field("gain", "f32");
    gain.set(AttrKey::Label, "\"Gain\"".to_string());
    gain.set(AttrKey::Default, "0.5".to_string());
    gain.set(AttrKey::Min, "0.0".to_string());
    gain.set(AttrKey::Max, "2.0".to_string());
    gain.set(AttrKey::Max, "1.0".to_string());
    let fields: Vec<FieldCode> = vec![gain, field("steps", "i64"), field("on", "bool")]
        .iter()
        .map(|f| field_code(f).ok().unwrap())
        .collect();
    let expected = [
        "impl<F: Fn(::synth_core::float::FloatOp) -> u64> ",
        "::synth_core::module::SynthModuleParams<F> for Amp { ",
        "fn param_descs() -> ::std::vec::Vec<::synth_core::module::ParamDesc> { ::std::vec![ ",
        "::synth_core::module::ParamDesc { name: \"gain\".into(), label: \"Gain\".into(), ",
        "kind: ::synth_core::module::ParamKind::Float { min: ((0.0) as f32).to_bits(), ",
        "max: ((1.0) as f32).to_bits() }, ",
        "default: ::synth_core::model::ParamValue::Float(((0.5) as f64).to_bits()) }, ",
        "::synth_core::module::ParamDesc { name: \"steps\".into(), label: \"Steps\".into(), ",
        "kind: ::synth_core::module::ParamKind::Int { min: i64::MIN, max: i64::MAX }, ",
        "default: ::synth_core::model::ParamValue::Int((0) as i64) }, ",
        "::synth_core::module::ParamDesc { name: \"on\".into(), label: \"On\".into(), ",
        "kind: ::synth_core::module::ParamKind::Bool, ",
        "default: ::synth_core::model::ParamValue::Bool(false) }, ] } ",
        "fn from_values(values: &::synth_core::model::Params, fp: &F) -> Self { Self { ",
        "gain: values.get(\"gain\").and_then(|v| v.as_f64(fp).map(|x| f64::from_bits(x) as f32))",
        ".unwrap_or_else(|| (0.5) as f32), ",
        "steps: values.get(\"steps\").and_then(|v| v.as_i64(fp)).unwrap_or_else(|| (0) as i64), ",
        "on: values.get(\"on\").and_then(|v| v.as_bool()).unwrap_or_else(|| false), } } }",
    ];
    assert_eq!(impl_code("Amp", &fields), expected.concat());
}

/// A struct of params, with the impl that is written for it in the test above.
struct Amp {
    gain: f32,
    steps: i64,
    on: bool,
}

impl<F: Fn(::synth_core::float::FloatOp) -> u64> ::synth_core::module::SynthModuleParams<F>
    for Amp
{
    fn param_descs() -> ::std::vec::Vec<::synth_core::module::ParamDesc> {
        vec![
            ::synth_core::module::ParamDesc {
                name: "gain".into(),
                label: "Gain".into(),
                kind: ::synth_core::module::ParamKind::Float {
                    min: ((0.0) as f32).to_bits(),
                    max: ((1.0) as f32).to_bits(),
                },
                default: ::synth_core::model::ParamValue::Float(((0.5) as f64).to_bits()),
            },
            ::synth_core::module::ParamDesc {
                name: "steps".into(),
                label: "Steps".into(),
                kind: ::synth_core::module::ParamKind::Int { min: i64::MIN, max: i64::MAX },
                default: ::synth_core::model::ParamValue::Int((0) as i64),
            },
            ::synth_core::module::ParamDesc {
                name: "on".into(),
                label: "On".into(),
                kind: ::synth_core::module::ParamKind::Bool,
                default: ::synth_core::model::ParamValue::Bool(false),
            },
        ]
    }
    fn from_values(values: &::synth_core::model::Params, fp: &F) -> Self {
        Self {
            gain: values
                .get("gain")
                .and_then(|v| v.as_f64(fp).map(|x| f64::from_bits(x) as f32))
                .unwrap_or_else(|| (0.5) as f32),
            steps: values.get("steps").and_then(|v| v.as_i64(fp)).unwrap_or_else(|| (0) as i64),
            on: values.get("on").and_then(|v| v.as_bool()).unwrap_or_else(|| false),
        }
    }
}

#[test]
fn the_written_impl_reads_params() {
    let unit: fn(FloatOp) -> u64 = native;
    let mut values = Params::new();
    values.insert("gain".to_string(), ParamValue::Float(0.25f64.to_bits()));
    values.insert("steps".to_string(), ParamValue::Bool(true));
    values.insert("on".to_string(), ParamValue::Bool(true));
    let amp = Amp::from_values(&values, &unit);
    assert_eq!((amp.gain, amp.steps, amp.on), (0.25, 0, true));
    let amp = Amp::from_values(&Params::new(), &unit);
    assert_eq!((amp.gain, amp.steps, amp.on), (0.5, 0, false));
    let descs = <Amp as SynthModuleParams<fn(FloatOp) -> u64>>::param_descs();
    assert_eq!(descs.iter().map(|d| d.label.as_str()).collect::<Vec<_>>(), ["Gain", "Steps", "On"]);
}

#[test]
fn a_field_without_a_kind_is_refused() {
    assert_eq!(
        field_code(&field("name", "String")).err().unwrap(),
        "SynthModuleParams: unsupported field type `String` (expected f32/f64/i64/bool)"
    );
    let pair = FieldDecl::new("pair".to_string(), "(f32, f32)".to_string(), None);
    assert_eq!(
        field_code(&pair).err().unwrap(),
        "SynthModuleParams: unsupported field type `<non-path>` (expected f32/f64/i64/bool)"
    );
}

#[test]
fn a_derive_needs_a_struct_with_named_fields() {
    assert_eq!(target_fault(Target::Named), None);
    assert_eq!(
        target_fault(Target::OtherStruct).unwrap(),
        "SynthModuleParams requires a struct with named fields"
    );
    assert_eq!(
        target_fault(Target::NoStruct).unwrap(),
        "SynthModuleParams can only be derived for structs"
    );
}

#[test]
fn a_label_is_quoted_as_given() {
    let code = code_of(FieldKind::Bool, &field("on", "bool"), "\"On/off\"");
    assert!(code.desc.contains("label: \"On/off\".into()"));
    assert_eq!(
        code.init,
        "on: values.get(\"on\").and_then(|v| v.as_bool()).unwrap_or_else(|| false), "
    );
}

#[test]
fn labels_are_capitalized_names() {
    assert_eq!(humanize("cutoff_hz"), "Cutoff_hz");
    assert_eq!(humanize("ßx"), "SSx");
    assert_eq!(humanize("Q"), "Q");
    assert_eq!(humanize(""), "");
    assert_eq!(with_first("SS", "ßx"), "SSx");
}

#[test]
fn sorting_puts_producers_first() {
    let order = topo_sort(4, &vec![(3, 1), (1, 0), (3, 0), (2, 3)]).ok().unwrap();
    let place = |v: usize| order.iter().position(|&x| x == v).unwrap();
    assert!(place(2) < place(3) && place(3) < place(1) && place(1) < place(0));
    assert!(topo_sort(2, &vec![(0, 1), (1, 0)]).is_err());
    assert!(topo_sort(1, &vec![(0, 0)]).is_err());
    assert_eq!(topo_sort(0, &vec![]).ok().unwrap(), Vec::<usize>::new());
}

#[test]
fn tables_keep_one_value_per_key() {
    let mut t: Table<u32> = Table::new();
    t.insert("a".to_string(), 1);
    t.insert("b".to_string(), 2);
    t.insert("a".to_string(), 3);
    assert_eq!(t.get("a"), Some(&3));
    assert_eq!(t.get("b"), Some(&2));
    assert_eq!(t.get("c"), None);
    assert!(t.contains_key("b") && !t.contains_key("c"));
    assert_eq!(t.keys(), vec!["a".to_string(), "b".to_string()]);
}

#[test]
fn endpoints_and_errors_spell_their_parts() {
    let e = Endpoint("osc".to_string(), "out".to_string());
    assert_eq!((e.node(), e.port()), ("osc", "out"));
    assert_eq!(PatchError("bad yaml".to_string()).message(), "patch error: bad yaml");
    assert_eq!(default_version(), 1);
}
