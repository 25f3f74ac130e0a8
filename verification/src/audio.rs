//! Audio endpoint selection.

use vstd::prelude::*;

use crate::text::str_eq;

verus! {

/// Spectrum audio endpoint flow.
#[derive(Clone, Copy, Debug, PartialEq, Eq, Structural)]
pub enum AudioDeviceFlow {
    /// Capture/recording endpoint.
    Capture,
    /// Render/playback endpoint.
    Render,
}

/// Audio endpoint as Spectrum exposes it to config/UI.
#[derive(Clone, Debug, PartialEq, Eq)]
pub struct AudioDevice {
    /// Stable endpoint id.
    pub id: String,
    /// Friendly display name.
    pub name: String,
    /// All-endpoint index used by PortAudio/Madmom.
    pub index: i32,
}

/// Raw endpoint emitted by a fakeable enumerator.
#[derive(Clone, Debug, PartialEq, Eq)]
pub struct EnumeratedAudioEndpoint {
    /// Stable endpoint id.
    pub id: String,
    /// Friendly display name.
    pub name: String,
    /// Endpoint flow.
    pub flow: AudioDeviceFlow,
}

/// An endpoint position as an `i32`, saturating at `i32::MAX`.
pub open spec fn endpoint_index(position: int) -> i32 {
    if position <= i32::MAX {
        position as i32
    } else {
        i32::MAX
    }
}

/// The capture endpoints among `endpoints`, in order, each with its position
/// in the full endpoint list.
pub open spec fn capture_devices(endpoints: Seq<EnumeratedAudioEndpoint>) -> Seq<AudioDevice>
    decreases endpoints.len(),
{
    if endpoints.len() == 0 {
        Seq::empty()
    } else {
        let rest = capture_devices(endpoints.drop_last());
        let last = endpoints.last();
        if last.flow == AudioDeviceFlow::Capture {
            rest.push(
                AudioDevice {
                    id: last.id,
                    name: last.name,
                    index: endpoint_index(endpoints.len() - 1),
                },
            )
        } else {
            rest
        }
    }
}

/// Return Spectrum's capture-device list while preserving all-endpoint indexes.
pub fn capture_devices_from_all_endpoints(endpoints: &[EnumeratedAudioEndpoint]) -> (devices: Vec<
    AudioDevice,
>)
    ensures
        devices@ == capture_devices(endpoints@),
{
    let mut devices: Vec<AudioDevice> = Vec::new();
    let mut index: usize = 0;
    while index < endpoints.len()
        invariant
            index <= endpoints@.len(),
            devices@ == capture_devices(endpoints@.take(index as int)),
        decreases endpoints@.len() - index,
    {
        let endpoint = &endpoints[index];
        proof {
            assert(endpoints@.take(index + 1).drop_last() =~= endpoints@.take(index as int));
        }
        if endpoint.flow == AudioDeviceFlow::Capture {
            let position: i32 = if index <= i32::MAX as usize {
                index as i32
            } else {
                i32::MAX
            };
            devices.push(
                AudioDevice { id: endpoint.id.clone(), name: endpoint.name.clone(), index: position },
            );
        }
        index += 1;
    }
    assert(endpoints@.take(endpoints@.len() as int) =~= endpoints@);
    devices
}

/// The index of the first device whose id is `id`, or `-1` when none is.
pub open spec fn index_of_device(devices: Seq<AudioDevice>, id: Seq<char>) -> i32
    decreases devices.len(),
{
    if devices.len() == 0 {
        -1i32
    } else if devices[0].id@ == id {
        devices[0].index
    } else {
        index_of_device(devices.drop_first(), id)
    }
}

/// Find the current Madmom/PortAudio index for a configured audio device id:
/// `-1` when no device is configured or none has that id.
pub fn current_audio_device_index(configured_device_id: Option<&str>, devices: &[AudioDevice]) -> (index: i32)
    ensures
        index == match configured_device_id {
            None => -1i32,
            Some(configured) => index_of_device(devices@, configured@),
        },
{
    let id = match configured_device_id {
        None => {
            return -1;
        },
        Some(id) => id,
    };
    let mut i: usize = 0;
    assert(devices@.skip(0) =~= devices@);
    while i < devices.len()
        invariant
            i <= devices@.len(),
            configured_device_id == Some(id),
            index_of_device(devices@, id@) == index_of_device(
                devices@.skip(i as int),
                id@,
            ),
        decreases devices@.len() - i,
    {
        proof {
            assert(devices@.skip(i as int).drop_first() =~= devices@.skip(i + 1));
            assert(devices@.skip(i as int)[0] == devices@[i as int]);
        }
        if str_eq(devices[i].id.as_str(), id) {
            assert(devices@.skip(i as int)[0].id@ == id@);
            assert(index_of_device(devices@.skip(i as int), id@)
                == devices@[i as int].index);
            return devices[i].index;
        }
        i += 1;
    }
    -1
}

} // verus!

verus! {

/// Capture devices keep their all-endpoint index: each listed device is a
/// capture endpoint, with that endpoint's id and name and its position in the
/// full endpoint list (the position itself whenever it fits in an `i32`);
/// and every capture endpoint is listed.
pub proof fn lemma_capture_devices_keep_positions(endpoints: Seq<EnumeratedAudioEndpoint>)
    ensures
        forall|i: int| 0 <= i <= i32::MAX ==> #[trigger] endpoint_index(i) == i,
        forall|k: int|
            0 <= k < capture_devices(endpoints).len() ==> exists|i: int|
                0 <= i < endpoints.len() && endpoints[i].flow == AudioDeviceFlow::Capture
                    && #[trigger] capture_devices(endpoints)[k] == (AudioDevice {
                    id: endpoints[i].id,
                    name: endpoints[i].name,
                    index: endpoint_index(i),
                }),
        forall|i: int|
            0 <= i < endpoints.len() && (#[trigger] endpoints[i]).flow == AudioDeviceFlow::Capture
                ==> capture_devices(endpoints).contains(
                AudioDevice {
                    id: endpoints[i].id,
                    name: endpoints[i].name,
                    index: endpoint_index(i),
                },
            ),
    decreases endpoints.len(),
{
    if endpoints.len() > 0 {
        let rest = endpoints.drop_last();
        lemma_capture_devices_keep_positions(rest);
        let all = capture_devices(endpoints);
        let part = capture_devices(rest);
        assert forall|k: int| 0 <= k < all.len() implies exists|i: int|
            0 <= i < endpoints.len() && endpoints[i].flow == AudioDeviceFlow::Capture
                && #[trigger] all[k] == (AudioDevice {
                id: endpoints[i].id,
                name: endpoints[i].name,
                index: endpoint_index(i),
            }) by {
            if k < part.len() {
                assert(all[k] == part[k]);
                let i = choose|i: int|
                    0 <= i < rest.len() && rest[i].flow == AudioDeviceFlow::Capture
                        && #[trigger] part[k] == (AudioDevice {
                        id: rest[i].id,
                        name: rest[i].name,
                        index: endpoint_index(i),
                    });
                assert(endpoints[i] == rest[i]);
            } else {
                assert(endpoints.last() == endpoints[endpoints.len() - 1]);
            }
        }
        assert forall|i: int|
            0 <= i < endpoints.len() && (#[trigger] endpoints[i]).flow
                == AudioDeviceFlow::Capture implies all.contains(
            AudioDevice {
                id: endpoints[i].id,
                name: endpoints[i].name,
                index: endpoint_index(i),
            },
        ) by {
            let d = AudioDevice {
                id: endpoints[i].id,
                name: endpoints[i].name,
                index: endpoint_index(i),
            };
            if i < rest.len() {
                assert(rest[i] == endpoints[i]);
                let k = choose|k: int| 0 <= k < part.len() && part[k] == d;
                assert(all[k] == part[k]);
            } else {
                assert(all[all.len() - 1] == d);
            }
        }
    }
}

/// Looking a device up by id finds the first device with that id, and gives
/// `-1` exactly when no device has it.
pub proof fn lemma_device_lookup_first(devices: Seq<AudioDevice>, id: Seq<char>)
    ensures
        (exists|k: int| 0 <= k < devices.len() && (#[trigger] devices[k]).id@ == id) ==> exists|
            k: int,
        |
            0 <= k < devices.len() && (#[trigger] devices[k]).id@ == id && index_of_device(
                devices,
                id,
            ) == devices[k].index && forall|j: int| 0 <= j < k ==> (#[trigger] devices[j]).id@ != id,
        !(exists|k: int| 0 <= k < devices.len() && (#[trigger] devices[k]).id@ == id)
            ==> index_of_device(devices, id) == -1,
    decreases devices.len(),
{
    if devices.len() > 0 {
        let rest = devices.drop_first();
        lemma_device_lookup_first(rest, id);
        if devices[0].id@ != id {
            if exists|k: int| 0 <= k < devices.len() && (#[trigger] devices[k]).id@ == id {
                let k = choose|k: int| 0 <= k < devices.len() && (#[trigger] devices[k]).id@ == id;
                assert(rest[k - 1] == devices[k]);
                let m = choose|m: int|
                    0 <= m < rest.len() && (#[trigger] rest[m]).id@ == id && index_of_device(
                        rest,
                        id,
                    ) == rest[m].index && forall|j: int|
                        0 <= j < m ==> (#[trigger] rest[j]).id@ != id;
                assert(devices[m + 1] == rest[m]);
                assert forall|j: int| 0 <= j < m + 1 implies (#[trigger] devices[j]).id@ != id by {
                    if j > 0 {
                        assert(devices[j] == rest[j - 1]);
                    }
                }
            } else {
                assert forall|m: int| 0 <= m < rest.len() implies (#[trigger] rest[m]).id@ != id by {
                    assert(rest[m] == devices[m + 1]);
                }
            }
        }
    }
}

} // verus!
