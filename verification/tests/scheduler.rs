use domers::scheduler::{
    schedule_operator_frame, schedule_visualizers, FullVisualizerSpec, InputSpec, OutputSpec,
    VisualizerSpec,
};

fn v(name: &'static str, priority: i32) -> VisualizerSpec {
    VisualizerSpec {
        name,
        priority,
        inputs_enabled: true,
    }
}

#[test]
fn priority_zero_is_never_selected() {
    let frame = schedule_visualizers(&[v("dead-midi-test", 0)]);
    assert!(frame.active.is_empty());
}

#[test]
fn priority_two_ties_run_together_for_flash_overlay() {
    let frame = schedule_visualizers(&[v("volume", 2), v("flash", 2), v("tv-static", 1)]);
    assert_eq!(frame.active, vec!["volume", "flash"]);
}

#[test]
fn diagnostics_override_normal_modes() {
    let frame = schedule_visualizers(&[v("volume", 2), v("flash-colors", 1000)]);
    assert_eq!(frame.active, vec!["flash-colors"]);
}

#[test]
fn always_run_priority_is_supported() {
    let frame = schedule_visualizers(&[v("volume", 2), v("future-overlay", -1)]);
    assert_eq!(frame.active, vec!["volume", "future-overlay"]);
}

#[test]
fn disabled_inputs_block_visualizer() {
    let frame = schedule_visualizers(&[
        VisualizerSpec {
            name: "volume",
            priority: 2,
            inputs_enabled: false,
        },
        v("tv-static", 1),
    ]);
    assert_eq!(frame.active, vec!["tv-static"]);
}

#[test]
fn schedules_inputs_visualizers_and_outputs_in_operator_order() {
    let inputs = [
        InputSpec {
            name: "audio",
            enabled: true,
            always_active: true,
        },
        InputSpec {
            name: "midi",
            enabled: true,
            always_active: false,
        },
    ];
    let outputs = [OutputSpec {
        name: "dome",
        enabled: true,
        visualizers: vec![
            FullVisualizerSpec {
                name: "volume",
                priority: 2,
                inputs: &["audio"],
            },
            FullVisualizerSpec {
                name: "flash",
                priority: 2,
                inputs: &["midi"],
            },
            FullVisualizerSpec {
                name: "tv-static",
                priority: 1,
                inputs: &[],
            },
        ],
    }];

    let frame = schedule_operator_frame(&inputs, &outputs);

    assert_eq!(frame.active_inputs, vec!["audio", "midi"]);
    assert_eq!(frame.active_visualizers, vec!["volume", "flash"]);
    assert_eq!(frame.active_outputs, vec!["dome"]);
}

#[test]
fn output_without_schedulable_visualizers_is_inactive() {
    let inputs = [InputSpec {
        name: "audio",
        enabled: false,
        always_active: false,
    }];
    let outputs = [OutputSpec {
        name: "dome",
        enabled: true,
        visualizers: vec![FullVisualizerSpec {
            name: "volume",
            priority: 2,
            inputs: &["audio"],
        }],
    }];

    let frame = schedule_operator_frame(&inputs, &outputs);

    assert!(frame.active_inputs.is_empty());
    assert!(frame.active_visualizers.is_empty());
    assert!(frame.active_outputs.is_empty());
}

#[test]
fn top_priority_is_at_least_one_and_the_highest_enabled() {
    assert_eq!(schedule_visualizers(&[]).top_priority, 1);
    assert_eq!(schedule_visualizers(&[v("off", 0), v("overlay", -1)]).top_priority, 1);
    let frame = schedule_visualizers(&[
        v("a", 3),
        VisualizerSpec {
            name: "blocked",
            priority: 9,
            inputs_enabled: false,
        },
        v("b", 5),
        v("c", 5),
    ]);
    assert_eq!(frame.top_priority, 5);
    assert_eq!(frame.active, vec!["b", "c"]);
}

#[test]
fn always_run_visualizers_follow_the_winners_in_order() {
    let frame = schedule_visualizers(&[
        v("overlay-1", -1),
        v("low", 1),
        v("overlay-2", -1),
        v("high", 4),
        v("high-2", 4),
    ]);
    assert_eq!(frame.active, vec!["high", "high-2", "overlay-1", "overlay-2"]);
}

#[test]
fn disabled_output_and_repeated_names_are_handled() {
    let inputs = [
        InputSpec {
            name: "audio",
            enabled: true,
            always_active: false,
        },
        InputSpec {
            name: "orientation",
            enabled: true,
            always_active: false,
        },
        InputSpec {
            name: "midi",
            enabled: false,
            always_active: true,
        },
    ];
    let outputs = [
        OutputSpec {
            name: "stage",
            enabled: false,
            visualizers: vec![FullVisualizerSpec {
                name: "tracer",
                priority: 2,
                inputs: &["orientation"],
            }],
        },
        OutputSpec {
            name: "dome",
            enabled: true,
            visualizers: vec![FullVisualizerSpec {
                name: "volume",
                priority: 2,
                inputs: &["audio"],
            }],
        },
        OutputSpec {
            name: "bar",
            enabled: true,
            visualizers: vec![
                FullVisualizerSpec {
                    name: "volume",
                    priority: 2,
                    inputs: &["audio"],
                },
                FullVisualizerSpec {
                    name: "flash",
                    priority: 2,
                    inputs: &["midi"],
                },
            ],
        },
    ];

    let frame = schedule_operator_frame(&inputs, &outputs);

    assert_eq!(frame.active_outputs, vec!["dome", "bar"]);
    assert_eq!(frame.active_visualizers, vec!["volume"]);
    assert_eq!(frame.active_inputs, vec!["audio"]);
}

#[test]
fn input_needed_by_an_active_name_on_any_output_runs() {
    let inputs = [InputSpec {
        name: "orientation",
        enabled: true,
        always_active: false,
    }];
    let outputs = [
        OutputSpec {
            name: "dome",
            enabled: true,
            visualizers: vec![FullVisualizerSpec {
                name: "quaternion",
                priority: 1,
                inputs: &[],
            }],
        },
        OutputSpec {
            name: "stage",
            enabled: false,
            visualizers: vec![FullVisualizerSpec {
                name: "quaternion",
                priority: 1,
                inputs: &["orientation"],
            }],
        },
    ];

    let frame = schedule_operator_frame(&inputs, &outputs);

    assert_eq!(frame.active_visualizers, vec!["quaternion"]);
    assert_eq!(frame.active_inputs, vec!["orientation"]);
}
