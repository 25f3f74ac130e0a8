use domers::color::Rgb;
use domers::commands::DomeCommand;
use domers::simulator::DomeOutputSink;
use domers::wipe::dome_blackout_commands;

#[test]
fn simulation_only_sink_is_schedulable_and_emits_write_buffer_frames() {
    let mut sink = DomeOutputSink::new(false, true);
    assert!(sink.enabled());

    sink.write_buffer(vec![Rgb::from_u24(0x12_34_56)]);
    sink.flush();

    assert_eq!(
        sink.drain_commands(),
        vec![
            DomeCommand::Frame(vec![Rgb::from_u24(0x12_34_56)]),
            DomeCommand::Flush
        ]
    );
}

#[test]
fn hardware_only_sink_does_not_emit_simulator_commands() {
    let mut sink = DomeOutputSink::new(true, false);
    assert!(sink.enabled());

    sink.set_pixel(1, 2, Rgb::from_u24(0xff_00_00));
    sink.write_buffer(vec![Rgb::from_u24(0x00_ff_00)]);
    sink.flush();

    assert!(sink.drain_commands().is_empty());
}

#[test]
fn disabled_sink_is_not_schedulable_and_drain_empties() {
    let sink = DomeOutputSink::new(false, false);
    assert!(!sink.enabled());

    let mut sink = DomeOutputSink::new(false, true);
    sink.set_pixel(3, 4, Rgb::black());
    assert_eq!(
        sink.drain_commands(),
        vec![DomeCommand::Pixel {
            strut_index: 3,
            led_index: 4,
            color: Rgb { r: 0, g: 0, b: 0 }
        }]
    );
    assert!(sink.drain_commands().is_empty());
}

#[test]
fn rgb_from_u24_splits_channels() {
    assert_eq!(
        Rgb::from_u24(0x12_34_56),
        Rgb {
            r: 0x12,
            g: 0x34,
            b: 0x56
        }
    );
    assert_eq!(
        Rgb::from_u24(0xab_ff_00_01),
        Rgb {
            r: 0xff,
            g: 0x00,
            b: 0x01
        }
    );
}

#[test]
fn blackout_covers_every_mapped_led_then_flushes() {
    let commands = dome_blackout_commands(&[Some(2), None, Some(1)]);
    let black = Rgb::black();
    assert_eq!(
        commands,
        vec![
            DomeCommand::Pixel {
                strut_index: 0,
                led_index: 0,
                color: black
            },
            DomeCommand::Pixel {
                strut_index: 0,
                led_index: 1,
                color: black
            },
            DomeCommand::Pixel {
                strut_index: 2,
                led_index: 0,
                color: black
            },
            DomeCommand::Flush,
        ]
    );
    assert_eq!(dome_blackout_commands(&[]), vec![DomeCommand::Flush]);
}
