//! synth-core: core library of the synth modular synthesizer platform.

use vstd::prelude::*;

pub mod audio;
pub mod blocks;
pub mod bytes;
pub mod compile;
pub mod compile_voices;
pub mod downstream;
pub mod engine;
pub mod expand;
pub mod float;
pub mod graph;
pub mod layout;
pub mod model;
pub mod module;
pub mod modules;
pub mod numbers;
pub mod params;
pub mod plan;
pub mod plan_engine;
pub mod plan_laws;
pub mod processing;
pub mod registry;
pub mod resolve;
pub mod slots;
pub mod table;
pub mod text;
pub mod voice_layout;
pub mod voice_laws;
pub mod voice_source;
pub mod voiced_plan;
pub mod walk;
pub mod wav;
pub mod wiring;

verus! {

/// Appends the greeting to `w`.
pub fn print_hello(w: &mut Vec<u8>)
    ensures
        final(w)@ == old(w)@ + vstd::utf8::encode_utf8("Hello World!!! I'm synth!!!\n"@),
{
    let greeting = "Hello World!!! I'm synth!!!\n";
    let bytes: &[u8] = greeting.as_bytes();
    let mut i: usize = 0;
    while i < bytes.len()
        invariant
            i <= bytes.len(),
            w@ =~= old(w)@ + bytes@.take(i as int),
        decreases bytes.len() - i,
    {
        w.push(bytes[i]);
        i = i + 1;
    }
    assert(bytes@.take(i as int) =~= bytes@);
}

} // verus!
