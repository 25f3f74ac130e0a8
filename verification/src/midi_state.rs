//! Per-tick MIDI command replay and device-scoped knob/note state.

use vstd::prelude::*;

use std::collections::BTreeMap;

use crate::midi::{MidiCommand, MidiCommandKind};
use crate::text::string_push;

verus! {

broadcast use {vstd::std_specs::btree::group_btree_axioms, vstd::laws_cmp::group_laws_cmp};

/// The number of messages the MIDI log keeps.
pub const MAX_LOG: usize = 64;

/// Deterministic MIDI replay stream.
#[derive(Clone, Debug)]
pub struct MidiReplay<V> {
    commands: Vec<MidiCommand<V>>,
    cursor: usize,
}

impl<V: Copy> MidiReplay<V> {
    /// The cursor never passes the end of the stream.
    pub closed spec fn wf(self) -> bool {
        self.cursor <= self.commands.len()
    }

    /// Every command of the stream, in order.
    pub closed spec fn spec_commands(self) -> Seq<MidiCommand<V>> {
        self.commands@
    }

    /// How many commands have been handed out so far.
    pub closed spec fn spec_cursor(self) -> nat {
        self.cursor as nat
    }

    /// Create a MIDI replay stream.
    pub fn new(commands: Vec<MidiCommand<V>>) -> (replay: Self)
        ensures
            replay.wf(),
            replay.spec_commands() == commands@,
            replay.spec_cursor() == 0,
    {
        Self { commands, cursor: 0 }
    }

    /// Drain commands since the last tick: every command not handed out yet.
    pub fn commands_since_last_tick(&mut self) -> (remaining: Vec<MidiCommand<V>>)
        requires
            old(self).wf(),
        ensures
            final(self).wf(),
            remaining@ == old(self).spec_commands().skip(old(self).spec_cursor() as int),
            final(self).spec_commands() == old(self).spec_commands(),
            final(self).spec_cursor() == final(self).spec_commands().len(),
    {
        let remaining = copy_from(&self.commands, self.cursor);
        self.cursor = self.commands.len();
        remaining
    }
}

fn copy_from<V: Copy>(commands: &Vec<MidiCommand<V>>, start: usize) -> (copied: Vec<MidiCommand<V>>)
    requires
        start <= commands@.len(),
    ensures
        copied@ == commands@.skip(start as int),
{
    let mut copied: Vec<MidiCommand<V>> = Vec::new();
    let mut i: usize = start;
    while i < commands.len()
        invariant
            start <= i <= commands@.len(),
            copied@ == commands@.subrange(start as int, i as int),
        decreases commands@.len() - i,
    {
        copied.push(commands[i]);
        assert(copied@ =~= commands@.subrange(start as int, i + 1));
        i += 1;
    }
    assert(commands@.subrange(start as int, commands@.len() as int) =~= commands@.skip(
        start as int,
    ));
    copied
}

/// The digit character for `d` in `0..10`.
pub open spec fn digit_char(d: int) -> char {
    ((0x30 + d) as u8) as char
}

/// The decimal rendering of `n`, without leading zeros.
pub open spec fn decimal(n: nat) -> Seq<char>
    decreases n,
{
    if n < 10 {
        seq![digit_char(n as int)]
    } else {
        decimal(n / 10).push(digit_char((n % 10) as int))
    }
}

fn push_decimal(s: &mut String, n: u8)
    ensures
        final(s)@ == old(s)@ + decimal(n as nat),
{
    let ghost start = s@;
    if n >= 100 {
        let hundreds: u8 = n / 100;
        let tens: u8 = (n / 10) % 10;
        let ones: u8 = n % 10;
        string_push(s, (0x30u8 + hundreds) as char);
        string_push(s, (0x30u8 + tens) as char);
        string_push(s, (0x30u8 + ones) as char);
        assert(decimal((n / 100) as nat) == seq![digit_char(hundreds as int)]);
        assert(decimal((n / 10) as nat) == decimal((n / 100) as nat).push(digit_char(tens as int)));
        assert(decimal(n as nat) == decimal((n / 10) as nat).push(digit_char(ones as int)));
        assert(s@ =~= start + decimal(n as nat));
    } else if n >= 10 {
        let tens: u8 = n / 10;
        let ones: u8 = n % 10;
        string_push(s, (0x30u8 + tens) as char);
        string_push(s, (0x30u8 + ones) as char);
        assert(decimal((n / 10) as nat) == seq![digit_char(tens as int)]);
        assert(decimal(n as nat) == decimal((n / 10) as nat).push(digit_char(ones as int)));
        assert(s@ =~= start + decimal(n as nat));
    } else {
        string_push(s, (0x30u8 + n) as char);
        assert(s@ =~= start + decimal(n as nat));
    }
}

/// The log line for a command whose value reads `value_text`.
pub open spec fn log_message<V>(command: MidiCommand<V>, value_text: Seq<char>) -> Seq<char> {
    let head = "device "@ + decimal(command.device_index as nat);
    match command.kind {
        MidiCommandKind::ControlChange => head + " knob "@ + decimal(command.index as nat)
            + " -> "@ + value_text,
        MidiCommandKind::Note => head + " note "@ + decimal(command.index as nat) + " -> "@
            + value_text,
        MidiCommandKind::Program => head + " program "@ + decimal(command.index as nat),
    }
}

/// The log after appending `message`: the oldest message goes when the log
/// is full.
pub open spec fn log_after(log: Seq<Seq<char>>, message: Seq<char>) -> Seq<Seq<char>> {
    if log.len() >= MAX_LOG {
        log.drop_first().push(message)
    } else {
        log.push(message)
    }
}

fn log_line<V>(command: &MidiCommand<V>, value_text: &str) -> (line: String)
    ensures
        line@ == log_message(*command, value_text@),
{
    let mut line = String::from_str("device ");
    push_decimal(&mut line, command.device_index);
    match command.kind {
        MidiCommandKind::ControlChange => {
            line.append(" knob ");
            push_decimal(&mut line, command.index);
            line.append(" -> ");
            line.append(value_text);
        },
        MidiCommandKind::Note => {
            line.append(" note ");
            push_decimal(&mut line, command.index);
            line.append(" -> ");
            line.append(value_text);
        },
        MidiCommandKind::Program => {
            line.append(" program ");
            push_decimal(&mut line, command.index);
        },
    }
    line
}

/// The characters of each log line.
pub open spec fn lines_view(lines: Seq<String>) -> Seq<Seq<char>> {
    lines.map_values(|line: String| line@)
}

/// Stateful MIDI command processor mirroring Spectrum's no-hardware semantics.
#[derive(Clone, Debug)]
pub struct MidiState<V> {
    commands: Vec<MidiCommand<V>>,
    drained: usize,
    knob_values: BTreeMap<(u8, u8), V>,
    note_velocities: BTreeMap<(u8, u8), V>,
    log: Vec<String>,
}

impl<V: Copy> Default for MidiState<V> {
    /// No commands, no touched knobs or notes, an empty log.
    fn default() -> (state: Self)
        ensures
            state.wf(),
            state.spec_commands() == Seq::<MidiCommand<V>>::empty(),
            state.spec_drained() == 0,
            state.knobs() == Map::<(u8, u8), V>::empty(),
            state.notes() == Map::<(u8, u8), V>::empty(),
            state.spec_log() == Seq::<Seq<char>>::empty(),
    {
        let state = MidiState {
            commands: Vec::new(),
            drained: 0,
            knob_values: BTreeMap::new(),
            note_velocities: BTreeMap::new(),
            log: Vec::new(),
        };
        assert(lines_view(state.log@) =~= Seq::<Seq<char>>::empty());
        state
    }
}

impl<V: Copy> MidiState<V> {
    /// Drained commands were pushed; the log holds at most `MAX_LOG` lines.
    pub closed spec fn wf(self) -> bool {
        &&& self.drained <= self.commands.len()
        &&& self.log.len() <= MAX_LOG
    }

    /// Every command pushed, in order.
    pub closed spec fn spec_commands(self) -> Seq<MidiCommand<V>> {
        self.commands@
    }

    /// How many of the pushed commands have been drained.
    pub closed spec fn spec_drained(self) -> nat {
        self.drained as nat
    }

    /// The last value of each `(device, controller)` knob that was turned.
    pub closed spec fn knobs(self) -> Map<(u8, u8), V> {
        self.knob_values@
    }

    /// The last velocity of each `(device, note)` that was played.
    pub closed spec fn notes(self) -> Map<(u8, u8), V> {
        self.note_velocities@
    }

    /// The recent log messages, oldest first.
    pub closed spec fn spec_log(self) -> Seq<Seq<char>> {
        lines_view(self.log@)
    }

    /// Apply a MIDI command, updating note/knob state and the bounded log;
    /// `value_text` is how the command's value reads in the log.
    pub fn push(&mut self, command: MidiCommand<V>, value_text: &str)
        requires
            old(self).wf(),
        ensures
            final(self).wf(),
            final(self).spec_commands() == old(self).spec_commands().push(command),
            final(self).spec_drained() == old(self).spec_drained(),
            final(self).knobs() == if command.kind == MidiCommandKind::ControlChange {
                old(self).knobs().insert((command.device_index, command.index), command.value)
            } else {
                old(self).knobs()
            },
            final(self).notes() == if command.kind == MidiCommandKind::Note {
                old(self).notes().insert((command.device_index, command.index), command.value)
            } else {
                old(self).notes()
            },
            final(self).spec_log() == log_after(
                old(self).spec_log(),
                log_message(command, value_text@),
            ),
            final(self).spec_log().len() <= MAX_LOG,
            final(self).spec_drained() <= final(self).spec_commands().len(),
    {
        match command.kind {
            MidiCommandKind::ControlChange => {
                self.knob_values.insert((command.device_index, command.index), command.value);
            },
            MidiCommandKind::Note => {
                self.note_velocities.insert((command.device_index, command.index), command.value);
            },
            MidiCommandKind::Program => {},
        }
        let line = log_line(&command, value_text);
        self.push_log(line);
        self.commands.push(command);
    }

    fn push_log(&mut self, message: String)
        requires
            old(self).wf(),
        ensures
            final(self).wf(),
            final(self).spec_log() == log_after(old(self).spec_log(), message@),
            final(self).spec_log().len() <= MAX_LOG,
            final(self).spec_commands() == old(self).spec_commands(),
            final(self).spec_drained() == old(self).spec_drained(),
            final(self).knobs() == old(self).knobs(),
            final(self).notes() == old(self).notes(),
    {
        let ghost before = self.log@;
        if self.log.len() == MAX_LOG {
            self.log.remove(0);
        }
        self.log.push(message);
        assert(lines_view(self.log@) =~= log_after(lines_view(before), message@));
    }

    /// Drain commands exactly once per operator tick: every command pushed
    /// since the previous drain, in order.
    pub fn drain_since_last_tick(&mut self) -> (commands: Vec<MidiCommand<V>>)
        requires
            old(self).wf(),
        ensures
            final(self).wf(),
            commands@ == old(self).spec_commands().skip(old(self).spec_drained() as int),
            final(self).spec_commands() == old(self).spec_commands(),
            final(self).spec_drained() == final(self).spec_commands().len(),
            final(self).knobs() == old(self).knobs(),
            final(self).notes() == old(self).notes(),
            final(self).spec_log() == old(self).spec_log(),
    {
        let commands = copy_from(&self.commands, self.drained);
        self.drained = self.commands.len();
        commands
    }

    /// The last value of a knob, or `None` for an untouched knob.
    pub fn knob_value(&self, device_index: u8, index: u8) -> (value: Option<V>)
        ensures
            value == if self.knobs().contains_key((device_index, index)) {
                Some(self.knobs()[(device_index, index)])
            } else {
                None
            },
    {
        match self.knob_values.get(&(device_index, index)) {
            Some(v) => Some(*v),
            None => None,
        }
    }

    /// The last velocity of a note, or `None` for an untouched note.
    pub fn note_velocity(&self, device_index: u8, index: u8) -> (value: Option<V>)
        ensures
            value == if self.notes().contains_key((device_index, index)) {
                Some(self.notes()[(device_index, index)])
            } else {
                None
            },
    {
        match self.note_velocities.get(&(device_index, index)) {
            Some(v) => Some(*v),
            None => None,
        }
    }

    /// Recent log messages, oldest first.
    pub fn log(&self) -> (lines: &[String])
        ensures
            lines_view(lines@) == self.spec_log(),
    {
        self.log.as_slice()
    }
}

} // verus!

verus! {

/// Commands are drained exactly once: once a state is drained, draining it
/// again gives nothing, and after pushing `pushed` (and draining nothing in
/// between) the next drain gives exactly `pushed`, in order. The same holds
/// of a replay stream once it has been read to its end.
pub proof fn lemma_drain_once<V: Copy>(
    drained: MidiState<V>,
    later: MidiState<V>,
    pushed: Seq<MidiCommand<V>>,
    replay: MidiReplay<V>,
)
    requires
        drained.spec_drained() == drained.spec_commands().len(),
        later.spec_commands() == drained.spec_commands() + pushed,
        later.spec_drained() == drained.spec_drained(),
        replay.spec_cursor() == replay.spec_commands().len(),
    ensures
        drained.spec_commands().skip(drained.spec_drained() as int) == Seq::<
            MidiCommand<V>,
        >::empty(),
        later.spec_commands().skip(later.spec_drained() as int) == pushed,
        replay.spec_commands().skip(replay.spec_cursor() as int) == Seq::<
            MidiCommand<V>,
        >::empty(),
{
    assert(drained.spec_commands().skip(drained.spec_drained() as int) =~= Seq::<
        MidiCommand<V>,
    >::empty());
    assert(later.spec_commands().skip(later.spec_drained() as int) =~= pushed);
    assert(replay.spec_commands().skip(replay.spec_cursor() as int) =~= Seq::<
        MidiCommand<V>,
    >::empty());
}

/// The log keeps the newest messages: appending keeps it within `MAX_LOG`
/// lines, growing it by one until it holds 64, ends it with the new message, and leaves it a suffix of the old
/// log followed by the message.
pub proof fn lemma_log_keeps_newest(log: Seq<Seq<char>>, message: Seq<char>)
    requires
        log.len() <= MAX_LOG,
    ensures
        log_after(log, message).len() <= MAX_LOG,
        log_after(log, message).len() == if log.len() < 64 {
            log.len() + 1
        } else {
            64
        },
        log_after(log, message).last() == message,
        log_after(log, message) == log.push(message).skip(
            log.push(message).len() - log_after(log, message).len(),
        ),
{
    assert(log_after(log, message) =~= log.push(message).skip(
        log.push(message).len() - log_after(log, message).len(),
    ));
}

} // verus!
