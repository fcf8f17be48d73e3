//! The behavior/state module model.
//!
//! A module type bundles a **descriptor** (ports), a **state** (one per voice, living in the plan
//! buffer), a read-only **param block**, and a stateless **process** function.

use vstd::prelude::*;
use crate::float::{FloatOp, apply32, eval32, is_float_unit};
use crate::model::{ParamValue, ParamView, Params, number, settings, whole};
use crate::processing::ProcessFn;
use crate::table::{Table, value_of};
pub use crate::slots::SlotManager;
pub use crate::voice_source::{PolyphonicModule, SourceCtx, VoiceId};

verus! {

/// A 32x32 monochrome module icon. Each of the 32 entries is one row, top to bottom; within a row
/// bit `(31 - x)` is pixel column `x` (so a `0b..` literal reads left-to-right as the picture).
/// `1` = foreground, `0` = background. Pure data, with no rendering dependency.
pub type Icon = [u32; 32];

/// An all-background icon: the default when a module defines none.
pub const BLANK_ICON: Icon = [
    0,
    0,
    0,
    0,
    0,
    0,
    0,
    0,
    0,
    0,
    0,
    0,
    0,
    0,
    0,
    0,
    0,
    0,
    0,
    0,
    0,
    0,
    0,
    0,
    0,
    0,
    0,
    0,
    0,
    0,
    0,
    0,
];

/// A port: a named connection point. All ports carry the one unified channel type, a continuous
/// stream of samples, so there is no per-port "kind" to match.
pub struct PortDesc {
    pub name: String,
}

impl PortDesc {
    /// A port with the given name.
    pub fn sample(name: &str) -> (port: PortDesc)
        ensures
            port.name@ == name@,
    {
        PortDesc { name: name.to_owned() }
    }
}

/// The names of a list of ports.
pub open spec fn port_names(ports: Seq<PortDesc>) -> Seq<Seq<char>> {
    Seq::new(ports.len(), |i: int| ports[i].name@)
}

/// A module's inputs: either an exact named list, or a single port that repeats.
///
/// A [`Inputs::Variadic`] module declares one input port that the patch may wire any number of
/// times (by the same name); each wire materializes one input, and only connected inputs reach
/// the engine (no padding). Its `process` **must** be order-independent (commutative and
/// associative) over its inputs: the engine is free to materialize and compact them in any order.
pub enum Inputs {
    Fixed(Vec<PortDesc>),
    Variadic(PortDesc),
}

/// The contents of an [`Inputs`].
#[verifier::ext_equal]
pub enum InputsView {
    Fixed(Seq<Seq<char>>),
    Variadic(Seq<char>),
}

impl View for Inputs {
    type V = InputsView;

    open spec fn view(&self) -> InputsView {
        match self {
            Inputs::Fixed(ports) => InputsView::Fixed(port_names(ports@)),
            Inputs::Variadic(port) => InputsView::Variadic(port.name@),
        }
    }
}

impl Inputs {
    /// The fixed port list, or an empty one for a variadic module (whose count comes from the
    /// wiring, not the descriptor). Used to enumerate a node's *declared* inputs.
    pub fn fixed(&self) -> (ports: &[PortDesc])
        ensures
            ports@ == (match self {
                Inputs::Fixed(ports) => ports@,
                Inputs::Variadic(_) => Seq::<PortDesc>::empty(),
            }),
    {
        match self {
            Inputs::Fixed(ports) => ports.as_slice(),
            Inputs::Variadic(_) => &[],
        }
    }
}

/// The editable kind of a [`ParamDesc`]: what widget a generic node editor builds for it. Options
/// are owned so a module may compute them at `describe` time, e.g. enumerated audio devices.
#[allow(inconsistent_fields)]
pub enum ParamKind {
    /// A continuous number, optionally bounded; the bounds are bit patterns of single-precision
    /// numbers.
    Float { min: u32, max: u32 },
    /// A whole number, optionally bounded.
    Int { min: i64, max: i64 },
    /// A toggle.
    Bool,
    /// One of a fixed set of string options (a dropdown). The stored value is the chosen string.
    Choice(Vec<String>),
}

/// The contents of a [`ParamKind`].
#[allow(inconsistent_fields)]
#[verifier::ext_equal]
pub enum KindView {
    Float { min: u32, max: u32 },
    Int { min: i64, max: i64 },
    Bool,
    Choice(Seq<Seq<char>>),
}

impl View for ParamKind {
    type V = KindView;

    open spec fn view(&self) -> KindView {
        match self {
            ParamKind::Float { min, max } => KindView::Float { min: *min, max: *max },
            ParamKind::Int { min, max } => KindView::Int { min: *min, max: *max },
            ParamKind::Bool => KindView::Bool,
            ParamKind::Choice(options) => KindView::Choice(
                Seq::new(options@.len(), |i: int| options@[i]@),
            ),
        }
    }
}

/// A module's non-signal configuration parameter, as a UI presents it: a stable `name` (the key
/// in [`crate::model::Node::params`]), a display `label`, its editable `kind`, and the `default`
/// shown when the node has no stored value.
pub struct ParamDesc {
    pub name: String,
    pub label: String,
    pub kind: ParamKind,
    pub default: ParamValue,
}

/// The contents of a [`ParamDesc`].
#[verifier::ext_equal]
pub struct ParamDescView {
    pub name: Seq<char>,
    pub label: Seq<char>,
    pub kind: KindView,
    pub default: ParamView,
}

impl View for ParamDesc {
    type V = ParamDescView;

    open spec fn view(&self) -> ParamDescView {
        ParamDescView {
            name: self.name@,
            label: self.label@,
            kind: self.kind@,
            default: self.default@,
        }
    }
}

/// The contents of a list of [`ParamDesc`].
pub open spec fn param_views(descs: Seq<ParamDesc>) -> Seq<ParamDescView> {
    Seq::new(descs.len(), |i: int| descs[i]@)
}

/// A module's typed param block, from a plain struct whose fields carry descriptors: the field
/// name is the param name, the type picks the [`ParamKind`], and the default is both the
/// descriptor's default and the fallback of the conversion.
pub trait SynthModuleParams<F: Fn(FloatOp) -> u64>: Sized {
    /// The param descriptors.
    open spec fn descs() -> Seq<ParamDescView> {
        arbitrary()
    }

    /// The block that the stored values give.
    open spec fn of_values(values: Map<Seq<char>, ParamView>, fp: F) -> Self {
        arbitrary()
    }

    /// The param descriptors for a generic node editor.
    fn param_descs() -> (descs: Vec<ParamDesc>)
        ensures
            param_views(descs@) == Self::descs(),
    ;

    /// Build the typed block from the patch's stored values, filling absent keys with the declared
    /// defaults.
    fn from_values(values: &Params, fp: &F) -> (block: Self)
        requires
            is_float_unit(*fp),
        ensures
            block == Self::of_values(settings(*values), *fp),
    ;
}

impl<F: Fn(FloatOp) -> u64> SynthModuleParams<F> for () {
    open spec fn descs() -> Seq<ParamDescView> {
        Seq::empty()
    }

    open spec fn of_values(values: Map<Seq<char>, ParamView>, fp: F) -> () {
        ()
    }

    fn param_descs() -> (descs: Vec<ParamDesc>) {
        let descs: Vec<ParamDesc> = Vec::new();
        assert(param_views(descs@) =~= Seq::empty());
        descs
    }

    fn from_values(values: &Params, fp: &F) -> (block: ()) {
        ()
    }
}

/// A single-precision number, by its bit pattern.
#[derive(Debug, Clone, Copy, PartialEq, Eq, Structural)]
pub struct F32(pub u32);

/// A double-precision number, by its bit pattern.
#[derive(Debug, Clone, Copy, PartialEq, Eq, Structural)]
pub struct F64(pub u64);

/// Generic coercion from a dynamic [`ParamValue`] to a concrete param field type; keeps the rules
/// in one place rather than in module code.
pub trait FromParamValue<F: Fn(FloatOp) -> u64>: Sized {
    /// What a value is coerced to.
    open spec fn coerced(v: ParamView, fp: F) -> Option<Self> {
        arbitrary()
    }

    fn from_param_value(v: &ParamValue, fp: &F) -> (r: Option<Self>)
        requires
            is_float_unit(*fp),
        ensures
            r == Self::coerced(v@, *fp),
    ;
}

impl<F: Fn(FloatOp) -> u64> FromParamValue<F> for F32 {
    open spec fn coerced(v: ParamView, fp: F) -> Option<F32> {
        match number(v, fp) {
            Some(x) => Some(F32(eval32(fp, FloatOp::F64ToF32(x)))),
            None => None,
        }
    }

    fn from_param_value(v: &ParamValue, fp: &F) -> (r: Option<F32>) {
        match v.as_f64(fp) {
            Some(x) => Some(F32(apply32(fp, FloatOp::F64ToF32(x)))),
            None => None,
        }
    }
}

impl<F: Fn(FloatOp) -> u64> FromParamValue<F> for F64 {
    open spec fn coerced(v: ParamView, fp: F) -> Option<F64> {
        match number(v, fp) {
            Some(x) => Some(F64(x)),
            None => None,
        }
    }

    fn from_param_value(v: &ParamValue, fp: &F) -> (r: Option<F64>) {
        match v.as_f64(fp) {
            Some(x) => Some(F64(x)),
            None => None,
        }
    }
}

impl<F: Fn(FloatOp) -> u64> FromParamValue<F> for i64 {
    open spec fn coerced(v: ParamView, fp: F) -> Option<i64> {
        whole(v, fp)
    }

    fn from_param_value(v: &ParamValue, fp: &F) -> (r: Option<i64>) {
        v.as_i64(fp)
    }
}

impl<F: Fn(FloatOp) -> u64> FromParamValue<F> for bool {
    open spec fn coerced(v: ParamView, fp: F) -> Option<bool> {
        match v {
            ParamView::Bool(b) => Some(b),
            _ => None,
        }
    }

    fn from_param_value(v: &ParamValue, fp: &F) -> (r: Option<bool>) {
        v.as_bool()
    }
}

/// A module type's ports and editable params, given its current params (both may depend on
/// structural/param values, e.g. enumerated device options).
pub struct ModuleDesc {
    pub inputs: Inputs,
    pub outputs: Vec<PortDesc>,
    pub params: Vec<ParamDesc>,
}

/// The contents of a [`ModuleDesc`].
#[verifier::ext_equal]
pub struct DescView {
    pub inputs: InputsView,
    pub outputs: Seq<Seq<char>>,
    pub params: Seq<ParamDescView>,
}

impl View for ModuleDesc {
    type V = DescView;

    open spec fn view(&self) -> DescView {
        DescView {
            inputs: self.inputs@,
            outputs: port_names(self.outputs@),
            params: param_views(self.params@),
        }
    }
}

/// `n` materialized inputs suit the declared ones. A variadic port that nothing is wired to still
/// materializes one input, which reads silence.
pub open spec fn arity(inputs: InputsView, n: nat) -> bool {
    match inputs {
        InputsView::Fixed(names) => n == names.len(),
        InputsView::Variadic(_) => n >= 1,
    }
}

/// A module: a descriptor, a per-voice state, a read-only param block, and stateless behavior.
/// States and param blocks are bytes in the plan buffer.
pub trait ModuleType: ProcessFn {
    /// Ports and editable params for the given settings.
    open spec fn desc(&self, settings: Map<Seq<char>, ParamView>) -> DescView {
        arbitrary()
    }

    /// A voice's initial state for the given settings.
    open spec fn initial(&self, settings: Map<Seq<char>, ParamView>) -> Seq<u8> {
        arbitrary()
    }

    /// The param block for the given settings.
    open spec fn block(&self, settings: Map<Seq<char>, ParamView>) -> Seq<u8> {
        arbitrary()
    }

    /// The module's 32x32 icon.
    open spec fn picture(&self) -> Icon {
        BLANK_ICON
    }

    /// The ports and params. The behavior works on the initial state, on the param block, and on
    /// any number of inputs that suits the declared ones.
    fn describe(&self, params: &Params) -> (desc: ModuleDesc)
        requires
            self.ready(),
        ensures
            desc@ == self.desc(settings(*params)),
            forall|n: nat|
                arity(self.desc(settings(*params)).inputs, n) ==> #[trigger] self.fits(
                    self.initial(settings(*params)).len(),
                    self.block(settings(*params)).len(),
                    n,
                    self.desc(settings(*params)).outputs.len(),
                ),
    ;

    fn init_state(&self, params: &Params) -> (state: Vec<u8>)
        requires
            self.ready(),
        ensures
            state@ == self.initial(settings(*params)),
    ;

    /// The module's read-only configuration, packed into the plan's params section (one block per
    /// module, shared by its voices) and handed to `process`. Empty for modules with no params.
    fn init_params(&self, params: &Params) -> (block: Vec<u8>)
        requires
            self.ready(),
        ensures
            block@ == self.block(settings(*params)),
    ;

    fn icon(&self) -> (icon: Icon)
        ensures
            icon == self.picture(),
    ;
}

/// An OS-level permission a module may require. The host (CLI, UI) resolves this to a
/// human-readable message appropriate for its context: the core never produces user strings.
#[derive(Debug, Clone, Copy, PartialEq, Eq, Structural)]
pub enum OsPermission {
    /// macOS Accessibility (needed for global key-state polling).
    Accessibility,
}

/// Error returned by [`SourceType::make`]. Carries structured facts; no user-facing strings.
#[derive(Debug)]
pub enum SourceError {
    PermissionDenied(OsPermission),
    Other(String),
}

/// The static description + constructor of a voice-source type (the source analogue of
/// [`ModuleType`]).
pub trait SourceType {
    type Module: PolyphonicModule;

    /// The type can be used.
    open spec fn ready(&self) -> bool {
        true
    }

    /// Output ports (e.g. pitch/gate/velocity) for the given settings.
    open spec fn desc(&self, settings: Map<Seq<char>, ParamView>) -> DescView {
        arbitrary()
    }

    /// `made` may come of making a source with the given settings.
    open spec fn makes(
        &self,
        settings: Map<Seq<char>, ParamView>,
        made: Result<Self::Module, SourceError>,
    ) -> bool {
        true
    }

    /// The source's 32x32 icon.
    open spec fn picture(&self) -> Icon {
        BLANK_ICON
    }

    /// Output ports (e.g. pitch/gate/velocity); a source has no inputs.
    fn describe(&self, params: &Params) -> (desc: ModuleDesc)
        requires
            self.ready(),
        ensures
            desc@ == self.desc(settings(*params)),
    ;

    /// Construct the module, or return a structured [`SourceError`]. The engine surfaces this as a
    /// typed [`crate::plan_engine::EngineError`] variant; each host maps it to the appropriate
    /// user-facing message. A fresh module can drive any number of slots.
    fn make(&self, params: &Params) -> (made: Result<Self::Module, SourceError>)
        requires
            self.ready(),
        ensures
            self.makes(settings(*params), made),
            match made {
                Ok(module) => forall|max_voices: int| #[trigger]
                    module.suits(
                        max_voices,
                        self.desc(settings(*params)).outputs.len() as int,
                    ),
                Err(_) => true,
            },
    ;

    fn icon(&self) -> (icon: Icon)
        ensures
            icon == self.picture(),
    ;
}

/// One module type as the registry keeps it.
pub struct ModuleEntry<M: ModuleType> {
    pub module: M,
    pub icon: Icon,
}

impl<M: ModuleType> ModuleEntry<M> {
    /// The entry of a module type.
    pub fn of(module: M) -> (entry: ModuleEntry<M>)
        ensures
            entry.module == module,
            entry.icon == module.picture(),
    {
        let icon = module.icon();
        ModuleEntry { module, icon }
    }
}

/// One voice-source type as the registry keeps it.
pub struct SourceEntry<S: SourceType> {
    pub source: S,
    pub icon: Icon,
}

impl<S: SourceType> SourceEntry<S> {
    /// The entry of a voice-source type.
    pub fn of(source: S) -> (entry: SourceEntry<S>)
        ensures
            entry.source == source,
            entry.icon == source.picture(),
    {
        let icon = source.icon();
        SourceEntry { source, icon }
    }
}

/// Maps a patch's `type` id to its [`ModuleEntry`] (build-time only).
pub struct Registry<M: ModuleType, S: SourceType> {
    entries: Table<ModuleEntry<M>>,
    sources: Table<SourceEntry<S>>,
}

impl<M: ModuleType, S: SourceType> Registry<M, S> {
    /// The registered processing modules.
    pub closed spec fn modules(&self) -> Map<Seq<char>, ModuleEntry<M>> {
        self.entries@
    }

    /// The registered voice sources.
    pub closed spec fn sources(&self) -> Map<Seq<char>, SourceEntry<S>> {
        self.sources@
    }

    /// No id is kept twice.
    pub closed spec fn wf(&self) -> bool {
        self.entries.distinct() && self.sources.distinct()
    }

    /// An empty registry.
    pub fn new() -> (r: Registry<M, S>)
        ensures
            r.wf(),
            r.modules() == Map::<Seq<char>, ModuleEntry<M>>::empty(),
            r.sources() == Map::<Seq<char>, SourceEntry<S>>::empty(),
    {
        Registry { entries: Table::new(), sources: Table::new() }
    }

    /// Registers a processing module, in place of what had that id.
    pub fn register(&mut self, type_id: &str, module: M)
        ensures
            final(self).modules() == old(self).modules().insert(
                type_id@,
                ModuleEntry { module, icon: module.picture() },
            ),
            final(self).sources() == old(self).sources(),
            old(self).wf() ==> final(self).wf(),
    {
        self.entries.insert(type_id.to_owned(), ModuleEntry::of(module));
    }

    /// Registers a voice source, in place of what had that id.
    pub fn register_source(&mut self, type_id: &str, source: S)
        ensures
            final(self).sources() == old(self).sources().insert(
                type_id@,
                SourceEntry { source, icon: source.picture() },
            ),
            final(self).modules() == old(self).modules(),
            old(self).wf() ==> final(self).wf(),
    {
        self.sources.insert(type_id.to_owned(), SourceEntry::of(source));
    }

    /// The processing module with the given id.
    pub fn get(&self, type_id: &str) -> (entry: Option<&ModuleEntry<M>>)
        ensures
            match entry {
                Some(e) => value_of(self.modules(), type_id@) == Some(*e),
                None => value_of(self.modules(), type_id@) is None,
            },
    {
        self.entries.get(type_id)
    }

    /// The voice source with the given id.
    pub fn source(&self, type_id: &str) -> (entry: Option<&SourceEntry<S>>)
        ensures
            match entry {
                Some(e) => value_of(self.sources(), type_id@) == Some(*e),
                None => value_of(self.sources(), type_id@) is None,
            },
    {
        self.sources.get(type_id)
    }

    /// Whether the id is that of a voice source.
    pub fn is_source(&self, type_id: &str) -> (r: bool)
        ensures
            r == self.sources().dom().contains(type_id@),
    {
        self.sources.contains_key(type_id)
    }

    /// Type ids of all registered processing modules (not voice sources), each once. Used to
    /// populate a UI module palette.
    pub fn module_type_ids(&self) -> (ids: Vec<String>)
        requires
            self.wf(),
        ensures
            forall|id: Seq<char>| #[trigger]
                self.modules().dom().contains(id) <==> exists|i: int|
                    0 <= i < ids.len() && (#[trigger] ids@[i])@ == id,
            forall|i: int, j: int|
                0 <= i < j < ids.len() ==> (#[trigger] ids@[i])@ != (#[trigger] ids@[j])@,
    {
        self.entries.keys()
    }

    /// Type ids of all registered voice sources (polyphonic modules), each once.
    pub fn source_type_ids(&self) -> (ids: Vec<String>)
        requires
            self.wf(),
        ensures
            forall|id: Seq<char>| #[trigger]
                self.sources().dom().contains(id) <==> exists|i: int|
                    0 <= i < ids.len() && (#[trigger] ids@[i])@ == id,
            forall|i: int, j: int|
                0 <= i < j < ids.len() ==> (#[trigger] ids@[i])@ != (#[trigger] ids@[j])@,
    {
        self.sources.keys()
    }

    /// The icon for a module or source type, if registered.
    pub fn icon(&self, type_id: &str) -> (icon: Option<Icon>)
        ensures
            icon == (match value_of(self.modules(), type_id@) {
                Some(e) => Some(e.icon),
                None => match value_of(self.sources(), type_id@) {
                    Some(e) => Some(e.icon),
                    None => None,
                },
            }),
    {
        match self.get(type_id) {
            Some(e) => Some(e.icon),
            None => match self.source(type_id) {
                Some(e) => Some(e.icon),
                None => None,
            },
        }
    }
}

} // verus!
