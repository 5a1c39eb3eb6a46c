use comp_gate::device::{Device, DeviceId, DeviceInstance};
use comp_gate::error::Win32Error;
use comp_gate::ioapi::{read_state, ReadState};
use comp_gate::topology::{count_devices, find_in, DeviceTracker};
use comp_gate::whitelist::{pass_goes_on, FailurePolicy};

fn leaf(handle: u32, id: &str, parent: Option<&str>) -> Device {
    Device {
        devinst: DeviceInstance(handle),
        device_id: DeviceId::new(id),
        parent_id: parent.map(DeviceId::new),
        tree_level: 0,
        devices: Vec::new(),
        device_service: None,
        device_class: None,
        device_friendly_name: None,
        device_type: None,
        device_description: None,
    }
}

fn chain() -> DeviceTracker {
    let mut tracker = DeviceTracker::new();
    tracker.insert_device_into_tree(leaf(1, "A", None));
    tracker.insert_device_into_tree(leaf(2, "B", Some("A")));
    tracker.insert_device_into_tree(leaf(3, "C", Some("B")));
    tracker.insert_device_into_tree(leaf(4, "D", None));
    tracker
}

#[test]
fn identifiers_compare_by_their_text() {
    assert_eq!(DeviceId::from("USB\\A".to_string()), DeviceId::new("USB\\A"));
    assert_ne!(DeviceId::new("usb\\a"), DeviceId::new("USB\\A"));
    assert_eq!(DeviceId::new("X").clone(), DeviceId::new("X"));
    assert_eq!(DeviceId::new("X").as_str(), "X");
}

#[test]
fn releveling_moves_the_whole_subtree() {
    let mut tracker = chain();
    tracker.devices[0].relevel(5);
    assert_eq!(tracker.devices[0].tree_level, 5);
    assert_eq!(tracker.devices[0].devices[0].tree_level, 6);
    assert_eq!(tracker.devices[0].devices[0].devices[0].tree_level, 7);
    assert_eq!(tracker.devices[1].tree_level, 0);
}

#[test]
fn devices_are_found_at_any_depth() {
    let tracker = chain();
    assert_eq!(tracker.find(&DeviceId::new("C")).map(|d| d.devinst), Some(DeviceInstance(3)));
    assert_eq!(tracker.find(&DeviceId::new("D")).map(|d| d.devinst), Some(DeviceInstance(4)));
    assert!(tracker.find(&DeviceId::new("c")).is_none());
    assert!(find_in(&Vec::new(), &DeviceId::new("A")).is_none());
}

#[test]
fn devices_are_counted_up_to_a_limit() {
    let tracker = chain();
    assert_eq!(count_devices(&tracker.devices, 100), 4);
    assert_eq!(count_devices(&tracker.devices, 4), 4);
    assert_eq!(count_devices(&tracker.devices, 3), 3);
    assert_eq!(count_devices(&tracker.devices, 0), 0);
    assert_eq!(count_devices(&Vec::new(), 9), 0);
    assert!(tracker.has_room());
}

#[test]
fn a_pass_goes_on_as_the_policy_says() {
    let failed: Result<(), Win32Error> = Err(Win32Error::AccessDenied);
    assert!(pass_goes_on(FailurePolicy::Continue, &Ok(())));
    assert!(pass_goes_on(FailurePolicy::Abort, &Ok(())));
    assert!(pass_goes_on(FailurePolicy::Continue, &failed));
    assert!(!pass_goes_on(FailurePolicy::Abort, &failed));
}

#[test]
fn reading_a_frame_goes_through_its_states() {
    assert_eq!(read_state(&vec![]), ReadState::AwaitingPrefix);
    assert_eq!(read_state(&vec![0, 0, 1]), ReadState::AwaitingPrefix);
    assert_eq!(read_state(&vec![0, 0, 1, 2]), ReadState::AwaitingBody(258));
    assert_eq!(read_state(&vec![0, 0, 0, 2, 9]), ReadState::AwaitingBody(2));
    assert_eq!(read_state(&vec![0, 0, 0, 2, 9, 9]), ReadState::Ready(2));
    assert_eq!(read_state(&vec![0, 0, 0, 0]), ReadState::Ready(0));
    assert_eq!(read_state(&vec![1, 2, 3, 4]), ReadState::AwaitingBody(0x01020304));
}
