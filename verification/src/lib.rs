//! Deterministic, hardware-free core of the Domers lighting controller:
//! operator scheduling, legacy configuration analysis, input parsing and
//! simulator output sinks.

pub mod audio;
pub mod clock;
pub mod color;
pub mod commands;
pub mod midi;
pub mod midi_state;
pub mod migration;
pub mod scheduler;
pub mod simulator;
pub mod text;
pub mod wipe;
