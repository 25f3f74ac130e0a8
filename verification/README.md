# domers

The deterministic core of the Domers lighting controller, written in Verus
with its behaviour stated as contracts and proved.

## Layout

- `src/scheduler.rs`: visualizer priority selection and per-frame scheduling
  of inputs, visualizers and outputs.
- `src/migration.rs`: analysis of a legacy Spectrum XML configuration for
  stale and inert fields and broken MIDI binding targets.
- `src/midi.rs`, `src/midi_state.rs`: the live MIDI payload format, command
  replay, device-scoped knob/note state and the bounded command log.
- `src/audio.rs`: capture-device listing and configured-device lookup.
- `src/simulator.rs`, `src/wipe.rs`, `src/commands.rs`, `src/color.rs`: the
  simulator output sink and the dome blackout command stream.
- `src/clock.rs`: a fake millisecond clock for tests.
- `src/text.rs`: character-level text helpers the parsers share.
- `app/`: the parts that work with `f32` values (volume samples, knob
  curves, simulator colour compensation) around the library.
- `tests/`: tests on concrete values.
