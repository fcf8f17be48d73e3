//! The pipeline model: the patch (nodes, wires, prefabs, layout).
//!
//! It is pure data, with no engine or audio concepts.

use vstd::prelude::*;
use crate::float::{FloatOp, apply, eval, is_float_unit};
use crate::numbers::{finite64, is_trunc, reads_integers, size, value64};
use crate::table::Table;
use crate::text::joined;

verus! {

/// The version of a patch that names none.
pub fn default_version() -> (version: u32)
    ensures
        version == 1,
{
    1
}

/// A patch: the user-authored graph plus optional reusable prefabs and editor layout.
pub struct Patch {
    pub version: u32,
    pub prefabs: Vec<Prefab>,
    pub nodes: Vec<Node>,
    pub wires: Vec<Wire>,
    /// Optional editor layout: node id -> `[x, y]` relative to canvas center, as bit patterns of
    /// double-precision numbers. Empty for headless use.
    pub layout: Table<[u64; 2]>,
}

/// One module instance.
pub struct Node {
    pub id: String,
    /// Names a built-in module or a prefab.
    pub ty: String,
    /// Non-signal configuration. Constants are never stored here: wire a `const_generator`.
    pub params: Params,
}

/// A non-signal parameter value.
#[derive(Debug, PartialEq)]
pub enum ParamValue {
    Bool(bool),
    Int(i64),
    /// The bit pattern of a double-precision number.
    Float(u64),
    Str(String),
}

/// The contents of a [`ParamValue`].
pub enum ParamView {
    Bool(bool),
    Int(i64),
    Float(u64),
    Str(Seq<char>),
}

impl View for ParamValue {
    type V = ParamView;

    open spec fn view(&self) -> ParamView {
        match self {
            ParamValue::Bool(b) => ParamView::Bool(*b),
            ParamValue::Int(i) => ParamView::Int(*i),
            ParamValue::Float(f) => ParamView::Float(*f),
            ParamValue::Str(s) => ParamView::Str(s@),
        }
    }
}

impl Clone for ParamValue {
    fn clone(&self) -> (copy: ParamValue)
        ensures
            copy@ == self@,
    {
        match self {
            ParamValue::Bool(b) => ParamValue::Bool(*b),
            ParamValue::Int(i) => ParamValue::Int(*i),
            ParamValue::Float(f) => ParamValue::Float(*f),
            ParamValue::Str(s) => ParamValue::Str(s.clone()),
        }
    }
}

/// The number that a value stands for, as a double-precision number.
pub open spec fn number<F: Fn(FloatOp) -> u64>(v: ParamView, fp: F) -> Option<u64> {
    match v {
        ParamView::Int(i) => Some(eval(fp, FloatOp::I64ToF64(i))),
        ParamView::Float(f) => Some(f),
        _ => None,
    }
}

/// The whole number that a value stands for.
pub open spec fn whole<F: Fn(FloatOp) -> u64>(v: ParamView, fp: F) -> Option<i64> {
    match v {
        ParamView::Int(i) => Some(i),
        ParamView::Float(f) => Some(eval(fp, FloatOp::F64ToI64(f)) as i64),
        _ => None,
    }
}

impl ParamValue {
    /// Numeric value as a double-precision number (`Int` or `Float`).
    pub fn as_f64<F: Fn(FloatOp) -> u64>(&self, fp: &F) -> (r: Option<u64>)
        requires
            is_float_unit(*fp),
        ensures
            r == number(self@, *fp),
    {
        match self {
            ParamValue::Int(i) => Some(apply(fp, FloatOp::I64ToF64(*i))),
            ParamValue::Float(f) => Some(*f),
            _ => None,
        }
    }

    /// Numeric value as i64 (`Int`, or a truncated `Float`).
    pub fn as_i64<F: Fn(FloatOp) -> u64>(&self, fp: &F) -> (r: Option<i64>)
        requires
            is_float_unit(*fp),
        ensures
            r == whole(self@, *fp),
    {
        match self {
            ParamValue::Int(i) => Some(*i),
            ParamValue::Float(f) => Some(
                #[verifier::truncate]
                (apply(fp, FloatOp::F64ToI64(*f)) as i64),
            ),
            _ => None,
        }
    }

    /// The toggle that the value holds.
    pub fn as_bool(&self) -> (r: Option<bool>)
        ensures
            r == (match self@ {
                ParamView::Bool(b) => Some(b),
                _ => None,
            }),
    {
        match self {
            ParamValue::Bool(b) => Some(*b),
            _ => None,
        }
    }
}

/// A node's parameter map.
pub type Params = Table<ParamValue>;

/// The contents of a parameter map.
pub open spec fn settings(params: Params) -> Map<Seq<char>, ParamView> {
    Map::new(|key: Seq<char>| params@.dom().contains(key), |key: Seq<char>| params@[key]@)
}

/// A wire from one output port to one input port.
pub struct Wire {
    pub from: Endpoint,
    pub to: Endpoint,
}

/// A `[node, port]` reference.
#[derive(Debug, PartialEq)]
pub struct Endpoint(pub String, pub String);

impl Endpoint {
    /// The id of the node.
    pub fn node(&self) -> (id: &str)
        ensures
            id@ == self.0@,
    {
        self.0.as_str()
    }

    /// The name of the port.
    pub fn port(&self) -> (name: &str)
        ensures
            name@ == self.1@,
    {
        self.1.as_str()
    }
}

/// A reusable composite module: a named subgraph instantiated like a built-in.
pub struct Prefab {
    pub name: String,
    pub nodes: Vec<Node>,
    pub wires: Vec<Wire>,
    pub exposed: Vec<Exposed>,
}

/// A port a prefab presents outward; `reference` points at an internal node port.
pub struct Exposed {
    pub name: String,
    pub reference: Endpoint,
}

/// Error parsing or emitting a patch.
#[derive(Debug)]
pub struct PatchError(pub String);

impl PatchError {
    /// The error as shown to the user.
    pub fn message(&self) -> (text: String)
        ensures
            text@ == "patch error: "@ + self.0@,
    {
        joined("patch error: ", self.0.as_str())
    }
}

/// On a float unit that reads integers, a number parameter stands for the same number whether it was
/// written as an integer or not; as an integer it loses its fraction. Toggles and text are no
/// numbers.
pub proof fn law_number_params_keep_their_number<F: Fn(FloatOp) -> u64>(fp: F, v: ParamView)
    requires
        reads_integers(fp),
    ensures
        number(v, fp) is Some <==> v is Int || v is Float,
        whole(v, fp) is Some <==> v is Int || v is Float,
        v matches ParamView::Int(i) ==> whole(v, fp) == Some(i) && (-9007199254740992 <= i
            <= 9007199254740992 ==> value64(number(v, fp)->0) == i as int as real),
        v matches ParamView::Float(f) ==> finite64(f) && size(value64(f))
            < 9223372036854775808 as real ==> value64(number(v, fp)->0) == value64(f) && is_trunc(
            whole(v, fp)->0 as int,
            value64(f),
        ),
{
    if let ParamView::Float(f) = v {
        assert(whole(v, fp)->0 == eval(fp, FloatOp::F64ToI64(f)) as i64);
    }
}

} // verus!
