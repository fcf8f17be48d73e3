//! The built-in module types behind one type each, for the registry.

use vstd::prelude::*;
use crate::float::FloatOp;
use crate::model::{ParamView, Params};
use crate::module::{DescView, Icon, ModuleDesc, ModuleEntry, ModuleType, Registry, SourceEntry, SourceError, SourceType};
use crate::modules::adsr_envelope::Adsr;
use crate::modules::ansi_keyboard::{AnsiKeyboard, AnsiKeyboardType};
use crate::modules::const_generator::Const;
use crate::modules::midi_keyboard::{MidiKeyboard, MidiKeyboardType};
use crate::modules::mix::Mix;
use crate::modules::mul::Mul;
use crate::modules::range::Range;
use crate::modules::sawtooth_generator::Sawtooth;
use crate::modules::sine_generator::Sine;
use crate::modules::square_generator::Square;
use crate::processing::{CtxView, ModuleCtx, Outcome, ProcessFn, Tail};
use crate::voice_source::{PolyphonicModule, SourceCtx, SourceView};

verus! {

/// A built-in processing module.
#[derive(Clone, Copy)]
pub enum Builtin<F: Fn(FloatOp) -> u64> {
    Const(Const<F>),
    Sine(Sine<F>),
    Sawtooth(Sawtooth<F>),
    Square(Square<F>),
    Range(Range<F>),
    Mul(Mul<F>),
    Mix(Mix<F>),
    Adsr(Adsr<F>),
}

impl<F: Fn(FloatOp) -> u64> ProcessFn for Builtin<F> {
    open spec fn ready(&self) -> bool {
        match self {
            Builtin::Const(m) => m.ready(),
            Builtin::Sine(m) => m.ready(),
            Builtin::Sawtooth(m) => m.ready(),
            Builtin::Square(m) => m.ready(),
            Builtin::Range(m) => m.ready(),
            Builtin::Mul(m) => m.ready(),
            Builtin::Mix(m) => m.ready(),
            Builtin::Adsr(m) => m.ready(),
        }
    }

    open spec fn fits(
        &self,
        state_len: nat,
        params_len: nat,
        num_inputs: nat,
        num_outputs: nat,
    ) -> bool {
        match self {
            Builtin::Const(m) => m.fits(state_len, params_len, num_inputs, num_outputs),
            Builtin::Sine(m) => m.fits(state_len, params_len, num_inputs, num_outputs),
            Builtin::Sawtooth(m) => m.fits(state_len, params_len, num_inputs, num_outputs),
            Builtin::Square(m) => m.fits(state_len, params_len, num_inputs, num_outputs),
            Builtin::Range(m) => m.fits(state_len, params_len, num_inputs, num_outputs),
            Builtin::Mul(m) => m.fits(state_len, params_len, num_inputs, num_outputs),
            Builtin::Mix(m) => m.fits(state_len, params_len, num_inputs, num_outputs),
            Builtin::Adsr(m) => m.fits(state_len, params_len, num_inputs, num_outputs),
        }
    }

    open spec fn outcome(&self, state: Seq<u8>, params: Seq<u8>, ctx: CtxView) -> Outcome {
        match self {
            Builtin::Const(m) => m.outcome(state, params, ctx),
            Builtin::Sine(m) => m.outcome(state, params, ctx),
            Builtin::Sawtooth(m) => m.outcome(state, params, ctx),
            Builtin::Square(m) => m.outcome(state, params, ctx),
            Builtin::Range(m) => m.outcome(state, params, ctx),
            Builtin::Mul(m) => m.outcome(state, params, ctx),
            Builtin::Mix(m) => m.outcome(state, params, ctx),
            Builtin::Adsr(m) => m.outcome(state, params, ctx),
        }
    }

    fn process(&self, state: &mut Vec<u8>, params: &Vec<u8>, ctx: &mut ModuleCtx) -> (tail: Tail) {
        match self {
            Builtin::Const(m) => m.process(state, params, ctx),
            Builtin::Sine(m) => m.process(state, params, ctx),
            Builtin::Sawtooth(m) => m.process(state, params, ctx),
            Builtin::Square(m) => m.process(state, params, ctx),
            Builtin::Range(m) => m.process(state, params, ctx),
            Builtin::Mul(m) => m.process(state, params, ctx),
            Builtin::Mix(m) => m.process(state, params, ctx),
            Builtin::Adsr(m) => m.process(state, params, ctx),
        }
    }
}

impl<F: Fn(FloatOp) -> u64> ModuleType for Builtin<F> {
    open spec fn desc(&self, settings: Map<Seq<char>, ParamView>) -> DescView {
        match self {
            Builtin::Const(m) => m.desc(settings),
            Builtin::Sine(m) => m.desc(settings),
            Builtin::Sawtooth(m) => m.desc(settings),
            Builtin::Square(m) => m.desc(settings),
            Builtin::Range(m) => m.desc(settings),
            Builtin::Mul(m) => m.desc(settings),
            Builtin::Mix(m) => m.desc(settings),
            Builtin::Adsr(m) => m.desc(settings),
        }
    }

    open spec fn initial(&self, settings: Map<Seq<char>, ParamView>) -> Seq<u8> {
        match self {
            Builtin::Const(m) => m.initial(settings),
            Builtin::Sine(m) => m.initial(settings),
            Builtin::Sawtooth(m) => m.initial(settings),
            Builtin::Square(m) => m.initial(settings),
            Builtin::Range(m) => m.initial(settings),
            Builtin::Mul(m) => m.initial(settings),
            Builtin::Mix(m) => m.initial(settings),
            Builtin::Adsr(m) => m.initial(settings),
        }
    }

    open spec fn block(&self, settings: Map<Seq<char>, ParamView>) -> Seq<u8> {
        match self {
            Builtin::Const(m) => m.block(settings),
            Builtin::Sine(m) => m.block(settings),
            Builtin::Sawtooth(m) => m.block(settings),
            Builtin::Square(m) => m.block(settings),
            Builtin::Range(m) => m.block(settings),
            Builtin::Mul(m) => m.block(settings),
            Builtin::Mix(m) => m.block(settings),
            Builtin::Adsr(m) => m.block(settings),
        }
    }

    open spec fn picture(&self) -> Icon {
        match self {
            Builtin::Const(m) => m.picture(),
            Builtin::Sine(m) => m.picture(),
            Builtin::Sawtooth(m) => m.picture(),
            Builtin::Square(m) => m.picture(),
            Builtin::Range(m) => m.picture(),
            Builtin::Mul(m) => m.picture(),
            Builtin::Mix(m) => m.picture(),
            Builtin::Adsr(m) => m.picture(),
        }
    }

    fn describe(&self, params: &Params) -> (desc: ModuleDesc) {
        match self {
            Builtin::Const(m) => m.describe(params),
            Builtin::Sine(m) => m.describe(params),
            Builtin::Sawtooth(m) => m.describe(params),
            Builtin::Square(m) => m.describe(params),
            Builtin::Range(m) => m.describe(params),
            Builtin::Mul(m) => m.describe(params),
            Builtin::Mix(m) => m.describe(params),
            Builtin::Adsr(m) => m.describe(params),
        }
    }

    fn init_state(&self, params: &Params) -> (state: Vec<u8>) {
        match self {
            Builtin::Const(m) => m.init_state(params),
            Builtin::Sine(m) => m.init_state(params),
            Builtin::Sawtooth(m) => m.init_state(params),
            Builtin::Square(m) => m.init_state(params),
            Builtin::Range(m) => m.init_state(params),
            Builtin::Mul(m) => m.init_state(params),
            Builtin::Mix(m) => m.init_state(params),
            Builtin::Adsr(m) => m.init_state(params),
        }
    }

    fn init_params(&self, params: &Params) -> (block: Vec<u8>) {
        match self {
            Builtin::Const(m) => m.init_params(params),
            Builtin::Sine(m) => m.init_params(params),
            Builtin::Sawtooth(m) => m.init_params(params),
            Builtin::Square(m) => m.init_params(params),
            Builtin::Range(m) => m.init_params(params),
            Builtin::Mul(m) => m.init_params(params),
            Builtin::Mix(m) => m.init_params(params),
            Builtin::Adsr(m) => m.init_params(params),
        }
    }

    fn icon(&self) -> (icon: Icon) {
        match self {
            Builtin::Const(m) => m.icon(),
            Builtin::Sine(m) => m.icon(),
            Builtin::Sawtooth(m) => m.icon(),
            Builtin::Square(m) => m.icon(),
            Builtin::Range(m) => m.icon(),
            Builtin::Mul(m) => m.icon(),
            Builtin::Mix(m) => m.icon(),
            Builtin::Adsr(m) => m.icon(),
        }
    }
}

/// A running built-in voice source.
pub enum Keyboard<F: Fn(FloatOp) -> u64> {
    Ansi(AnsiKeyboard<F>),
    Midi(MidiKeyboard<F>),
}

impl<F: Fn(FloatOp) -> u64> PolyphonicModule for Keyboard<F> {
    open spec fn suits(&self, max_voices: int, num_outputs: int) -> bool {
        match self {
            Keyboard::Ansi(k) => k.suits(max_voices, num_outputs),
            Keyboard::Midi(k) => k.suits(max_voices, num_outputs),
        }
    }

    open spec fn plays(before: (Self, SourceView), after: (Self, SourceView), tail: Tail) -> bool {
        match (before.0, after.0) {
            (Keyboard::Ansi(a), Keyboard::Ansi(b)) => AnsiKeyboard::<F>::plays(
                (a, before.1),
                (b, after.1),
                tail,
            ),
            (Keyboard::Midi(a), Keyboard::Midi(b)) => MidiKeyboard::<F>::plays(
                (a, before.1),
                (b, after.1),
                tail,
            ),
            _ => false,
        }
    }

    fn process(&mut self, ctx: &mut SourceCtx) -> (tail: Tail) {
        match self {
            Keyboard::Ansi(k) => k.process(ctx),
            Keyboard::Midi(k) => k.process(ctx),
        }
    }
}

/// A built-in voice-source type.
#[derive(Clone, Copy)]
pub enum BuiltinSource<F: Fn(FloatOp) -> u64> {
    Ansi(AnsiKeyboardType<F>),
    Midi(MidiKeyboardType<F>),
}

impl<F: Fn(FloatOp) -> u64 + Copy> SourceType for BuiltinSource<F> {
    type Module = Keyboard<F>;

    open spec fn ready(&self) -> bool {
        match self {
            BuiltinSource::Ansi(s) => s.ready(),
            BuiltinSource::Midi(s) => s.ready(),
        }
    }

    open spec fn desc(&self, settings: Map<Seq<char>, ParamView>) -> DescView {
        match self {
            BuiltinSource::Ansi(s) => s.desc(settings),
            BuiltinSource::Midi(s) => s.desc(settings),
        }
    }

    open spec fn makes(
        &self,
        settings: Map<Seq<char>, ParamView>,
        made: Result<Keyboard<F>, SourceError>,
    ) -> bool {
        match self {
            BuiltinSource::Ansi(s) => match made {
                Ok(Keyboard::Ansi(k)) => s.makes(settings, Ok(k)),
                Ok(Keyboard::Midi(_)) => false,
                Err(e) => s.makes(settings, Err(e)),
            },
            BuiltinSource::Midi(s) => match made {
                Ok(Keyboard::Midi(k)) => s.makes(settings, Ok(k)),
                Ok(Keyboard::Ansi(_)) => false,
                Err(e) => s.makes(settings, Err(e)),
            },
        }
    }

    open spec fn picture(&self) -> Icon {
        match self {
            BuiltinSource::Ansi(s) => s.picture(),
            BuiltinSource::Midi(s) => s.picture(),
        }
    }

    fn describe(&self, params: &Params) -> (desc: ModuleDesc) {
        match self {
            BuiltinSource::Ansi(s) => s.describe(params),
            BuiltinSource::Midi(s) => s.describe(params),
        }
    }

    fn make(&self, params: &Params) -> (made: Result<Keyboard<F>, SourceError>) {
        match self {
            BuiltinSource::Ansi(s) => match s.make(params) {
                Ok(k) => Ok(Keyboard::Ansi(k)),
                Err(e) => Err(e),
            },
            BuiltinSource::Midi(s) => match s.make(params) {
                Ok(k) => Ok(Keyboard::Midi(k)),
                Err(e) => Err(e),
            },
        }
    }

    fn icon(&self) -> (icon: Icon) {
        match self {
            BuiltinSource::Ansi(s) => s.icon(),
            BuiltinSource::Midi(s) => s.icon(),
        }
    }
}

/// The entry of a built-in processing module.
pub open spec fn entry_of<F: Fn(FloatOp) -> u64>(module: Builtin<F>) -> ModuleEntry<Builtin<F>> {
    ModuleEntry { module, icon: module.picture() }
}

/// The entry of a built-in voice source.
pub open spec fn source_entry_of<F: Fn(FloatOp) -> u64 + Copy>(source: BuiltinSource<F>) -> SourceEntry<
    BuiltinSource<F>,
> {
    SourceEntry { source, icon: source.picture() }
}

/// The built-in processing modules by their ids.
pub open spec fn builtin_modules<F: Fn(FloatOp) -> u64>(fp: F) -> Map<
    Seq<char>,
    ModuleEntry<Builtin<F>>,
> {
    map![
        "const_generator"@ => entry_of(Builtin::Const(Const { fp })),
        "sine_generator"@ => entry_of(Builtin::Sine(Sine { fp })),
        "sawtooth_generator"@ => entry_of(Builtin::Sawtooth(Sawtooth { fp })),
        "square_generator"@ => entry_of(Builtin::Square(Square { fp })),
        "range"@ => entry_of(Builtin::Range(Range { fp })),
        "mul"@ => entry_of(Builtin::Mul(Mul { fp })),
        "mix"@ => entry_of(Builtin::Mix(Mix { fp })),
        "adsr_envelope"@ => entry_of(Builtin::Adsr(Adsr { fp })),
    ]
}

/// The built-in voice sources by their ids.
pub open spec fn builtin_sources<F: Fn(FloatOp) -> u64 + Copy>(fp: F, readable: bool) -> Map<
    Seq<char>,
    SourceEntry<BuiltinSource<F>>,
> {
    map![
        "ansi_keyboard"@ => source_entry_of(BuiltinSource::Ansi(AnsiKeyboardType { fp, readable })),
        "midi_keyboard"@ => source_entry_of(BuiltinSource::Midi(MidiKeyboardType { fp })),
    ]
}

impl<F: Fn(FloatOp) -> u64 + Copy> Registry<Builtin<F>, BuiltinSource<F>> {
    /// A registry with all built-in modules, on the given float unit. `readable` says whether the
    /// OS lets the host read the key state.
    pub fn with_builtins(fp: F, readable: bool) -> (r: Registry<Builtin<F>, BuiltinSource<F>>)
        ensures
            r.wf(),
            r.modules() == builtin_modules(fp),
            r.sources() == builtin_sources(fp, readable),
    {
        let mut r: Registry<Builtin<F>, BuiltinSource<F>> = Registry::new();
        r.register("const_generator", Builtin::Const(Const { fp }));
        r.register("sine_generator", Builtin::Sine(Sine { fp }));
        r.register("sawtooth_generator", Builtin::Sawtooth(Sawtooth { fp }));
        r.register("square_generator", Builtin::Square(Square { fp }));
        r.register("range", Builtin::Range(Range { fp }));
        r.register("mul", Builtin::Mul(Mul { fp }));
        r.register("mix", Builtin::Mix(Mix { fp }));
        r.register("adsr_envelope", Builtin::Adsr(Adsr { fp }));
        r.register_source("ansi_keyboard", BuiltinSource::Ansi(AnsiKeyboardType { fp, readable }));
        r.register_source("midi_keyboard", BuiltinSource::Midi(MidiKeyboardType { fp }));
        assert(r.modules() =~= builtin_modules(fp));
        assert(r.sources() =~= builtin_sources(fp, readable));
        r
    }
}

} // verus!
