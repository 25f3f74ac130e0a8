use domers::midi::{discrete_knob_slot, parse_midi_payload, MidiCommand, MidiCommandKind};
use domers::midi_state::{MidiReplay, MidiState, MAX_LOG};

/// The value step the application adds: parse the text, clamp to `[0, 1]`.
fn parse_full(payload: &[u8]) -> Option<MidiCommand<f32>> {
    let command = parse_midi_payload(payload)?;
    let value = command.value.parse::<f32>().ok()?.clamp(0.0, 1.0);
    Some(MidiCommand {
        device_index: command.device_index,
        kind: command.kind,
        index: command.index,
        value,
    })
}

fn assert_close(left: f32, right: f32) {
    assert!((left - right).abs() < f32::EPSILON, "{left} != {right}");
}

#[test]
fn drains_midi_commands_once() {
    let command = MidiCommand {
        device_index: 0,
        kind: MidiCommandKind::Note,
        index: 64,
        value: 1.0,
    };
    let mut replay = MidiReplay::new(vec![command]);

    assert_eq!(replay.commands_since_last_tick(), vec![command]);
    assert!(replay.commands_since_last_tick().is_empty());
}

#[test]
fn parses_live_midi_payloads() {
    assert_eq!(
        parse_full(b"note,64,1.0"),
        Some(MidiCommand {
            device_index: 0,
            kind: MidiCommandKind::Note,
            index: 64,
            value: 1.0
        })
    );
    assert_eq!(
        parse_full(b"cc,1,0.5"),
        Some(MidiCommand {
            device_index: 0,
            kind: MidiCommandKind::ControlChange,
            index: 1,
            value: 0.5
        })
    );
    assert_eq!(
        parse_full(b"device,2,note,64,1.0"),
        Some(MidiCommand {
            device_index: 2,
            kind: MidiCommandKind::Note,
            index: 64,
            value: 1.0
        })
    );
    assert_eq!(parse_full(b"bad,1,1"), None);
}

#[test]
fn tracks_device_scoped_knobs_notes_and_drain() {
    let mut state: MidiState<f32> = MidiState::default();
    assert_close(state.knob_value(2, 1).unwrap_or(-1.0), -1.0);
    assert_close(state.note_velocity(2, 64).unwrap_or(0.0), 0.0);

    let knob = MidiCommand {
        device_index: 2,
        kind: MidiCommandKind::ControlChange,
        index: 1,
        value: 0.5,
    };
    let note = MidiCommand {
        device_index: 2,
        kind: MidiCommandKind::Note,
        index: 64,
        value: 1.0,
    };
    state.push(knob, "0.5");
    state.push(note, "1");

    assert_close(state.knob_value(2, 1).unwrap_or(-1.0), 0.5);
    assert_close(state.note_velocity(2, 64).unwrap_or(0.0), 1.0);
    assert_eq!(state.drain_since_last_tick(), vec![knob, note]);
    assert!(state.drain_since_last_tick().is_empty());
    assert_eq!(state.log().len(), 2);
}

#[test]
fn payload_text_forms() {
    let parsed = parse_midi_payload(b"  control_change , +7 , 0.25 \n").unwrap();
    assert_eq!(parsed.device_index, 0);
    assert_eq!(parsed.kind, MidiCommandKind::ControlChange);
    assert_eq!(parsed.index, 7);
    assert_eq!(parsed.value, "0.25");

    let parsed = parse_midi_payload(b"device,255,program,3,x").unwrap();
    assert_eq!(parsed.device_index, 255);
    assert_eq!(parsed.kind, MidiCommandKind::Program);
    assert_eq!(parsed.index, 3);
    assert_eq!(parsed.value, "x");

    assert!(parse_midi_payload(b"note,256,1").is_none());
    assert!(parse_midi_payload(b"note,-1,1").is_none());
    assert!(parse_midi_payload(b"note,+,1").is_none());
    assert!(parse_midi_payload(b"note,1").is_none());
    assert!(parse_midi_payload(b"note,1,1,1").is_none());
    assert!(parse_midi_payload(b"device,2,note,1").is_none());
    assert!(parse_midi_payload(b"device").is_none());
    assert!(parse_midi_payload(b"device,x,note,1,1").is_none());
    assert!(parse_midi_payload(b"").is_none());
    assert!(parse_midi_payload(&[0xff, 0xfe]).is_none());
    assert!(parse_full(b"note,1,loud").is_none());
    assert_eq!(parse_full(b"note,1,2.0").unwrap().value, 1.0);
}

#[test]
fn log_lines_and_bound() {
    let mut state: MidiState<u8> = MidiState::default();
    state.push(
        MidiCommand {
            device_index: 2,
            kind: MidiCommandKind::ControlChange,
            index: 1,
            value: 0,
        },
        "0.5",
    );
    state.push(
        MidiCommand {
            device_index: 0,
            kind: MidiCommandKind::Note,
            index: 64,
            value: 0,
        },
        "1",
    );
    state.push(
        MidiCommand {
            device_index: 10,
            kind: MidiCommandKind::Program,
            index: 255,
            value: 0,
        },
        "ignored",
    );
    assert_eq!(
        state.log(),
        &[
            "device 2 knob 1 -> 0.5".to_string(),
            "device 0 note 64 -> 1".to_string(),
            "device 10 program 255".to_string(),
        ]
    );
    for i in 0..100u8 {
        state.push(
            MidiCommand {
                device_index: 0,
                kind: MidiCommandKind::Program,
                index: i,
                value: 0,
            },
            "",
        );
    }
    assert_eq!(state.log().len(), MAX_LOG);
    assert_eq!(state.log()[0], "device 0 program 36");
    assert_eq!(state.log()[MAX_LOG - 1], "device 0 program 99");
    assert_eq!(state.drain_since_last_tick().len(), 103);
    assert_eq!(state.knob_value(2, 1), Some(0));
    assert_eq!(state.knob_value(1, 2), None);
    assert_eq!(state.note_velocity(0, 64), Some(0));
    assert_eq!(state.note_velocity(0, 1), None);
}

fn discrete_from_value(value: f32, num_possible_values: u8) -> u8 {
    if num_possible_values == 0 {
        return discrete_knob_slot(0, 0);
    }
    let step = 1.0 / f32::from(num_possible_values + 2);
    let num_steps = (value.clamp(0.0, 1.0) / step) as u8;
    discrete_knob_slot(num_steps, num_possible_values)
}

#[test]
fn discrete_knob_slot_values() {
    assert_eq!(discrete_knob_slot(0, 4), 0);
    assert_eq!(discrete_knob_slot(1, 4), 0);
    assert_eq!(discrete_knob_slot(3, 4), 2);
    assert_eq!(discrete_knob_slot(6, 4), 3);
    assert_eq!(discrete_knob_slot(200, 4), 3);
    assert_eq!(discrete_knob_slot(7, 0), 0);
    assert_eq!(discrete_from_value(0.0, 4), 0);
    assert_eq!(discrete_from_value(0.5, 4), 2);
    assert_eq!(discrete_from_value(1.0, 4), 3);
    assert_eq!(discrete_from_value(0.5, 5), 2);
}
