use domers::audio::{
    capture_devices_from_all_endpoints, current_audio_device_index, AudioDeviceFlow,
    EnumeratedAudioEndpoint,
};

fn endpoint(id: &str, name: &str, flow: AudioDeviceFlow) -> EnumeratedAudioEndpoint {
    EnumeratedAudioEndpoint {
        id: id.to_string(),
        name: name.to_string(),
        flow,
    }
}

#[test]
fn capture_devices_preserve_all_endpoint_indexes() {
    let endpoints = vec![
        endpoint("speaker", "Speaker", AudioDeviceFlow::Render),
        endpoint("mic-a", "Mic A", AudioDeviceFlow::Capture),
        endpoint("loopback", "Loopback", AudioDeviceFlow::Render),
        endpoint("mic-b", "Mic B", AudioDeviceFlow::Capture),
    ];

    let devices = capture_devices_from_all_endpoints(&endpoints);

    assert_eq!(devices.len(), 2);
    assert_eq!(devices[0].id, "mic-a");
    assert_eq!(devices[0].index, 1);
    assert_eq!(devices[1].id, "mic-b");
    assert_eq!(devices[1].index, 3);
    assert_eq!(current_audio_device_index(Some("mic-b"), &devices), 3);
    assert_eq!(current_audio_device_index(Some("missing"), &devices), -1);
    assert_eq!(current_audio_device_index(None, &devices), -1);
}

#[test]
fn capture_devices_keep_names_and_first_match_wins() {
    let endpoints = vec![
        endpoint("mic", "First", AudioDeviceFlow::Capture),
        endpoint("mic", "Second", AudioDeviceFlow::Capture),
    ];
    let devices = capture_devices_from_all_endpoints(&endpoints);
    assert_eq!(devices[0].name, "First");
    assert_eq!(devices[1].name, "Second");
    assert_eq!(current_audio_device_index(Some("mic"), &devices), 0);
    assert!(capture_devices_from_all_endpoints(&[]).is_empty());
}
