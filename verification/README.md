# synth_core

A modular synthesizer: patches of modules and wires, compiled to a flat schedule of records and
rendered block by block, with polyphonic voices that a keyboard claims and releases.

- `src/` is the library, verified with Verus: the patch model, the registries, the two engines, the
  compiled plans, the built-in modules and keyboards.
- `app/` is the host around it: YAML, audio devices, MIDI input, the computer keyboard, WAV files
  and the derive macro's token handling.
- `tests/` runs the library on concrete patches.

Samples are bit patterns. The library computes with them through a float unit, a function from
`float::FloatOp` to its result that the host supplies; contracts speak of what that unit evaluates
to. Layouts, schedules, wiring, voice slots and block boundaries are stated over integers and
sequences, and the `law_` proof functions state what holds across functions.
