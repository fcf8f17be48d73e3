//! Module registry: maps a patch's `type` string to a factory that builds a module.
//!
//! All modules are registered statically.

use vstd::prelude::*;
use crate::float::{FloatOp, is_float_unit};
use crate::model::{ParamView, Params, settings};
use crate::modules::audio_output::{AudioOutput, output_of};
use crate::modules::constant::{ConstGenerator, constant_of};
use crate::modules::range::Range;
use crate::modules::sine::SineGenerator;
use crate::processing::{CtxView, Module, ModuleCtx, PrepareCfg, Step, Tail};
use crate::table::{Table, value_of};
use crate::text::joined3;

verus! {

/// Builds modules of one type.
pub trait Factory {
    type Module: Module;

    /// The factory can be used.
    open spec fn ready(&self) -> bool {
        true
    }

    /// The module that the settings ask for, or why there is none.
    open spec fn product(&self, settings: Map<Seq<char>, ParamView>) -> Result<
        Self::Module,
        Seq<char>,
    > {
        arbitrary()
    }

    /// Builds a module from `params`.
    fn make(&self, params: &Params) -> (made: Result<Self::Module, String>)
        requires
            self.ready(),
        ensures
            match made {
                Ok(m) => m.able() && self.product(settings(*params)) == Ok::<
                    Self::Module,
                    Seq<char>,
                >(m),
                Err(e) => self.product(settings(*params)) == Err::<Self::Module, Seq<char>>(e@),
            },
    ;
}

/// Maps module type ids to factories.
pub struct Registry<K: Factory> {
    factories: Table<K>,
}

/// The module that the factories build for a type id, or why there is none.
pub open spec fn created<K: Factory>(
    factories: Map<Seq<char>, K>,
    type_id: Seq<char>,
    settings: Map<Seq<char>, ParamView>,
) -> Result<K::Module, Seq<char>> {
    match value_of(factories, type_id) {
        Some(factory) => factory.product(settings),
        None => Err("unknown module type '"@ + type_id + "'"@),
    }
}

/// Every factory can be used.
pub open spec fn factories_ready<K: Factory>(factories: Map<Seq<char>, K>) -> bool {
    forall|id: Seq<char>| #[trigger] factories.dom().contains(id) ==> factories[id].ready()
}

impl<K: Factory> View for Registry<K> {
    type V = Map<Seq<char>, K>;

    closed spec fn view(&self) -> Map<Seq<char>, K> {
        self.factories@
    }
}

impl<K: Factory> Registry<K> {
    /// An empty registry.
    pub fn new() -> (r: Registry<K>)
        ensures
            r@ == Map::<Seq<char>, K>::empty(),
    {
        Registry { factories: Table::new() }
    }

    /// Registers a factory, in place of what had that id.
    pub fn register(&mut self, type_id: &str, factory: K)
        ensures
            final(self)@ == old(self)@.insert(type_id@, factory),
    {
        self.factories.insert(type_id.to_owned(), factory);
    }

    /// Build a module of `type_id` from `params`.
    pub fn create(&self, type_id: &str, params: &Params) -> (made: Result<K::Module, String>)
        requires
            factories_ready(self@),
        ensures
            match made {
                Ok(m) => m.able() && created(self@, type_id@, settings(*params)) == Ok::<
                    K::Module,
                    Seq<char>,
                >(m),
                Err(e) => created(self@, type_id@, settings(*params)) == Err::<
                    K::Module,
                    Seq<char>,
                >(e@),
            },
    {
        match self.factories.get(type_id) {
            Some(factory) => {
                assert(self@.dom().contains(type_id@));
                factory.make(params)
            },
            None => Err(joined3("unknown module type '", type_id, "'")),
        }
    }
}

/// A built-in module.
pub enum BuiltinModule<F: Fn(FloatOp) -> u64> {
    Const(ConstGenerator),
    Sine(SineGenerator<F>),
    Range(Range<F>),
    Output(AudioOutput),
}

impl<F: Fn(FloatOp) -> u64> Module for BuiltinModule<F> {
    open spec fn able(&self) -> bool {
        match self {
            BuiltinModule::Const(m) => Module::able(m),
            BuiltinModule::Sine(m) => Module::able(m),
            BuiltinModule::Range(m) => Module::able(m),
            BuiltinModule::Output(m) => Module::able(m),
        }
    }

    open spec fn ins(&self) -> Seq<Seq<char>> {
        match self {
            BuiltinModule::Const(m) => m.ins(),
            BuiltinModule::Sine(m) => m.ins(),
            BuiltinModule::Range(m) => m.ins(),
            BuiltinModule::Output(m) => m.ins(),
        }
    }

    open spec fn outs(&self) -> Seq<Seq<char>> {
        match self {
            BuiltinModule::Const(m) => m.outs(),
            BuiltinModule::Sine(m) => m.outs(),
            BuiltinModule::Range(m) => m.outs(),
            BuiltinModule::Output(m) => m.outs(),
        }
    }

    open spec fn prepared(self, cfg: PrepareCfg) -> BuiltinModule<F> {
        match self {
            BuiltinModule::Const(m) => BuiltinModule::Const(m.prepared(cfg)),
            BuiltinModule::Sine(m) => BuiltinModule::Sine(m.prepared(cfg)),
            BuiltinModule::Range(m) => BuiltinModule::Range(m.prepared(cfg)),
            BuiltinModule::Output(m) => BuiltinModule::Output(m.prepared(cfg)),
        }
    }

    open spec fn rewound(self) -> BuiltinModule<F> {
        match self {
            BuiltinModule::Const(m) => BuiltinModule::Const(m.rewound()),
            BuiltinModule::Sine(m) => BuiltinModule::Sine(m.rewound()),
            BuiltinModule::Range(m) => BuiltinModule::Range(m.rewound()),
            BuiltinModule::Output(m) => BuiltinModule::Output(m.rewound()),
        }
    }

    open spec fn step(self, ctx: CtxView) -> Step<BuiltinModule<F>> {
        match self {
            BuiltinModule::Const(m) => {
                let s = m.step(ctx);
                Step { module: BuiltinModule::Const(s.module), outputs: s.outputs, tail: s.tail }
            },
            BuiltinModule::Sine(m) => {
                let s = m.step(ctx);
                Step { module: BuiltinModule::Sine(s.module), outputs: s.outputs, tail: s.tail }
            },
            BuiltinModule::Range(m) => {
                let s = m.step(ctx);
                Step { module: BuiltinModule::Range(s.module), outputs: s.outputs, tail: s.tail }
            },
            BuiltinModule::Output(m) => {
                let s = m.step(ctx);
                Step { module: BuiltinModule::Output(s.module), outputs: s.outputs, tail: s.tail }
            },
        }
    }

    fn prepare(&mut self, cfg: &PrepareCfg) {
        match self {
            BuiltinModule::Const(m) => m.prepare(cfg),
            BuiltinModule::Sine(m) => m.prepare(cfg),
            BuiltinModule::Range(m) => m.prepare(cfg),
            BuiltinModule::Output(m) => m.prepare(cfg),
        }
    }

    fn reset(&mut self) {
        match self {
            BuiltinModule::Const(m) => m.reset(),
            BuiltinModule::Sine(m) => m.reset(),
            BuiltinModule::Range(m) => m.reset(),
            BuiltinModule::Output(m) => m.reset(),
        }
    }

    fn input_ports(&self) -> (names: Vec<String>) {
        match self {
            BuiltinModule::Const(m) => m.input_ports(),
            BuiltinModule::Sine(m) => m.input_ports(),
            BuiltinModule::Range(m) => m.input_ports(),
            BuiltinModule::Output(m) => m.input_ports(),
        }
    }

    fn output_ports(&self) -> (names: Vec<String>) {
        match self {
            BuiltinModule::Const(m) => m.output_ports(),
            BuiltinModule::Sine(m) => m.output_ports(),
            BuiltinModule::Range(m) => m.output_ports(),
            BuiltinModule::Output(m) => m.output_ports(),
        }
    }

    fn process(&mut self, ctx: &mut ModuleCtx) -> (tail: Tail) {
        match self {
            BuiltinModule::Const(m) => m.process(ctx),
            BuiltinModule::Sine(m) => m.process(ctx),
            BuiltinModule::Range(m) => m.process(ctx),
            BuiltinModule::Output(m) => m.process(ctx),
        }
    }
}

/// A factory of built-in modules, on a float unit.
#[derive(Clone, Copy)]
pub enum BuiltinFactory<F: Fn(FloatOp) -> u64> {
    Const(F),
    Sine(F),
    Range(F),
    Output(F),
}

impl<F: Fn(FloatOp) -> u64 + Copy> Factory for BuiltinFactory<F> {
    type Module = BuiltinModule<F>;

    open spec fn ready(&self) -> bool {
        match self {
            BuiltinFactory::Const(fp) => is_float_unit(*fp),
            BuiltinFactory::Sine(fp) => is_float_unit(*fp),
            BuiltinFactory::Range(fp) => is_float_unit(*fp),
            BuiltinFactory::Output(fp) => is_float_unit(*fp),
        }
    }

    open spec fn product(&self, settings: Map<Seq<char>, ParamView>) -> Result<
        BuiltinModule<F>,
        Seq<char>,
    > {
        match self {
            BuiltinFactory::Const(fp) => match constant_of(settings, *fp) {
                Ok(c) => Ok(BuiltinModule::Const(c)),
                Err(e) => Err(e),
            },
            BuiltinFactory::Sine(fp) => Ok(
                BuiltinModule::Sine(SineGenerator { phase: 0, fp: *fp }),
            ),
            BuiltinFactory::Range(fp) => Ok(BuiltinModule::Range(Range { fp: *fp })),
            BuiltinFactory::Output(fp) => match output_of(settings, *fp) {
                Ok(sink) => Ok(BuiltinModule::Output(sink)),
                Err(e) => Err(e),
            },
        }
    }

    fn make(&self, params: &Params) -> (made: Result<BuiltinModule<F>, String>) {
        match self {
            BuiltinFactory::Const(fp) => match ConstGenerator::from_params(params, fp) {
                Ok(c) => Ok(BuiltinModule::Const(c)),
                Err(e) => Err(e),
            },
            BuiltinFactory::Sine(fp) => Ok(BuiltinModule::Sine(SineGenerator::new(*fp))),
            BuiltinFactory::Range(fp) => Ok(BuiltinModule::Range(Range::new(*fp))),
            BuiltinFactory::Output(fp) => match AudioOutput::from_params(params, fp) {
                Ok(sink) => Ok(BuiltinModule::Output(sink)),
                Err(e) => Err(e),
            },
        }
    }
}

/// The built-in factories by their ids.
pub open spec fn builtin_factories<F: Fn(FloatOp) -> u64>(fp: F) -> Map<
    Seq<char>,
    BuiltinFactory<F>,
> {
    map![
        "const_generator"@ => BuiltinFactory::Const(fp),
        "sine_generator"@ => BuiltinFactory::Sine(fp),
        "range"@ => BuiltinFactory::Range(fp),
        "audio_output"@ => BuiltinFactory::Output(fp),
    ]
}

impl<F: Fn(FloatOp) -> u64 + Copy> Registry<BuiltinFactory<F>> {
    /// A registry with all built-in modules, on the given float unit.
    pub fn with_builtins(fp: F) -> (r: Registry<BuiltinFactory<F>>)
        ensures
            r@ == builtin_factories(fp),
    {
        let mut r: Registry<BuiltinFactory<F>> = Registry::new();
        r.register("const_generator", BuiltinFactory::Const(fp));
        r.register("sine_generator", BuiltinFactory::Sine(fp));
        r.register("range", BuiltinFactory::Range(fp));
        r.register("audio_output", BuiltinFactory::Output(fp));
        assert(r@ =~= builtin_factories(fp));
        r
    }
}

} // verus!
