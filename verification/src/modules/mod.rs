//! Built-in modules.

pub mod adsr_envelope;
pub mod ansi_keyboard;
pub mod audio_output;
pub mod builtins;
pub mod const_generator;
pub mod constant;
pub mod held_voices;
pub mod midi_keyboard;
pub mod mix;
pub mod mul;
pub mod oscillator;
pub mod port_laws;
pub mod range;
pub mod sawtooth_generator;
pub mod sine;
pub mod sine_generator;
pub mod square_generator;

pub use audio_output::AudioOutput;
pub use constant::ConstGenerator;
pub use range::Range;
pub use sine::SineGenerator;
