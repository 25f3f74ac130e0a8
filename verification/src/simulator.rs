//! Simulator output sinks decoupled from hardware OPC.

use vstd::prelude::*;

use crate::color::Rgb;
use crate::commands::DomeCommand;

verus! {

/// Display-adjusted simulator color.
#[derive(Clone, Copy, Debug, Default, PartialEq, Eq)]
pub struct SimulatorColor {
    /// Red channel.
    pub r: u8,
    /// Green channel.
    pub g: u8,
    /// Blue channel.
    pub b: u8,
}

/// Command sink for dome simulator frames.
#[derive(Clone, Debug, Default)]
pub struct DomeOutputSink {
    hardware_enabled: bool,
    simulation_enabled: bool,
    commands: Vec<DomeCommand>,
}

impl DomeOutputSink {
    /// Whether the hardware (OPC) output is enabled.
    pub closed spec fn spec_hardware_enabled(&self) -> bool {
        self.hardware_enabled
    }

    /// Whether the simulator output is enabled.
    pub closed spec fn spec_simulation_enabled(&self) -> bool {
        self.simulation_enabled
    }

    /// The simulator commands queued since the last drain, oldest first.
    pub closed spec fn spec_commands(&self) -> Seq<DomeCommand> {
        self.commands@
    }

    /// Create a sink with independent hardware and simulator enablement.
    pub fn new(hardware_enabled: bool, simulation_enabled: bool) -> (sink: Self)
        ensures
            sink.spec_hardware_enabled() == hardware_enabled,
            sink.spec_simulation_enabled() == simulation_enabled,
            sink.spec_commands() == Seq::<DomeCommand>::empty(),
    {
        Self { hardware_enabled, simulation_enabled, commands: Vec::new() }
    }

    /// Whether this output should participate in scheduling.
    pub fn enabled(&self) -> (enabled: bool)
        ensures
            enabled == (self.spec_hardware_enabled() || self.spec_simulation_enabled()),
    {
        self.hardware_enabled || self.simulation_enabled
    }

    /// Write a single logical LED.
    pub fn set_pixel(&mut self, strut_index: usize, led_index: usize, color: Rgb)
        ensures
            final(self).spec_hardware_enabled() == old(self).spec_hardware_enabled(),
            final(self).spec_simulation_enabled() == old(self).spec_simulation_enabled(),
            final(self).spec_commands() == if old(self).spec_simulation_enabled() {
                old(self).spec_commands().push(DomeCommand::Pixel { strut_index, led_index, color })
            } else {
                old(self).spec_commands()
            },
    {
        if self.simulation_enabled {
            self.commands.push(DomeCommand::Pixel { strut_index, led_index, color });
        }
    }

    /// Write a full frame, even when hardware/OPC is disabled.
    pub fn write_buffer(&mut self, frame: Vec<Rgb>)
        ensures
            final(self).spec_hardware_enabled() == old(self).spec_hardware_enabled(),
            final(self).spec_simulation_enabled() == old(self).spec_simulation_enabled(),
            final(self).spec_commands() == if old(self).spec_simulation_enabled() {
                old(self).spec_commands().push(DomeCommand::Frame(frame))
            } else {
                old(self).spec_commands()
            },
    {
        if self.simulation_enabled {
            self.commands.push(DomeCommand::Frame(frame));
        }
    }

    /// Flush the simulator frame.
    pub fn flush(&mut self)
        ensures
            final(self).spec_hardware_enabled() == old(self).spec_hardware_enabled(),
            final(self).spec_simulation_enabled() == old(self).spec_simulation_enabled(),
            final(self).spec_commands() == if old(self).spec_simulation_enabled() {
                old(self).spec_commands().push(DomeCommand::Flush)
            } else {
                old(self).spec_commands()
            },
    {
        if self.simulation_enabled {
            self.commands.push(DomeCommand::Flush);
        }
    }

    /// Drain queued simulator commands.
    pub fn drain_commands(&mut self) -> (drained: Vec<DomeCommand>)
        ensures
            drained@ == old(self).spec_commands(),
            final(self).spec_commands() == Seq::<DomeCommand>::empty(),
            final(self).spec_hardware_enabled() == old(self).spec_hardware_enabled(),
            final(self).spec_simulation_enabled() == old(self).spec_simulation_enabled(),
    {
        let mut drained: Vec<DomeCommand> = Vec::new();
        std::mem::swap(&mut drained, &mut self.commands);
        drained
    }
}

} // verus!
