use comp_gate::device::{Device, DeviceId, DeviceInstance, DeviceState};
use comp_gate::error::Win32Error;
use comp_gate::topology::{DeviceTracker, StateChange};

fn device(handle: u32, id: &str, parent: Option<&str>) -> Device {
    Device {
        devinst: DeviceInstance(handle),
        device_id: DeviceId::new(id),
        parent_id: parent.map(DeviceId::new),
        tree_level: 0,
        devices: Vec::new(),
        device_service: None,
        device_class: None,
        device_friendly_name: None,
        device_type: None,
        device_description: None,
    }
}

fn root_ids(tracker: &DeviceTracker) -> Vec<String> {
    tracker.devices.iter().map(|d| d.device_id.as_str().to_string()).collect()
}

#[test]
fn insert_without_parent_becomes_root() {
    let mut tracker = DeviceTracker::new();
    tracker.insert_device_into_tree(device(1, "USB\\A", None));
    assert_eq!(root_ids(&tracker), vec!["USB\\A".to_string()]);
    assert_eq!(tracker.devices[0].tree_level, 0);
}

#[test]
fn insert_below_present_parent() {
    let mut tracker = DeviceTracker::new();
    tracker.insert_device_into_tree(device(1, "USB\\A", None));
    tracker.insert_device_into_tree(device(2, "USB\\B", Some("USB\\A")));
    tracker.insert_device_into_tree(device(3, "USB\\C", Some("USB\\B")));
    assert_eq!(root_ids(&tracker), vec!["USB\\A".to_string()]);
    let a = &tracker.devices[0];
    assert_eq!(a.devices.len(), 1);
    assert_eq!(a.devices[0].device_id, DeviceId::new("USB\\B"));
    assert_eq!(a.devices[0].tree_level, 1);
    assert_eq!(a.devices[0].devices[0].device_id, DeviceId::new("USB\\C"));
    assert_eq!(a.devices[0].devices[0].tree_level, 2);
}

#[test]
fn orphan_is_adopted_when_parent_arrives() {
    let mut tracker = DeviceTracker::new();
    tracker.insert_device_into_tree(device(1, "HID\\CHILD", Some("USB\\PARENT")));
    tracker.insert_device_into_tree(device(2, "HID\\GRANDCHILD", Some("HID\\CHILD")));
    assert_eq!(root_ids(&tracker), vec!["HID\\CHILD".to_string()]);
    tracker.insert_device_into_tree(device(3, "USB\\PARENT", None));
    assert_eq!(root_ids(&tracker), vec!["USB\\PARENT".to_string()]);
    let parent = &tracker.devices[0];
    assert_eq!(parent.tree_level, 0);
    assert_eq!(parent.devices[0].device_id, DeviceId::new("HID\\CHILD"));
    assert_eq!(parent.devices[0].tree_level, 1);
    assert_eq!(parent.devices[0].devices[0].tree_level, 2);
}

#[test]
fn remove_takes_the_subtree() {
    let mut tracker = DeviceTracker::new();
    tracker.insert_device_into_tree(device(1, "USB\\A", None));
    tracker.insert_device_into_tree(device(2, "USB\\B", Some("USB\\A")));
    tracker.insert_device_into_tree(device(3, "USB\\C", Some("USB\\B")));
    tracker.insert_device_into_tree(device(4, "USB\\D", None));
    let removed = tracker.remove_device_by_id(&DeviceId::new("USB\\B")).unwrap();
    assert_eq!(removed.device_id, DeviceId::new("USB\\B"));
    assert_eq!(removed.devices.len(), 1);
    assert_eq!(removed.devices[0].device_id, DeviceId::new("USB\\C"));
    assert_eq!(root_ids(&tracker), vec!["USB\\A".to_string(), "USB\\D".to_string()]);
    assert!(tracker.find(&DeviceId::new("USB\\C")).is_none());
    assert!(tracker.remove_device_by_id(&DeviceId::new("USB\\C")).is_none());
}

#[test]
fn set_device_state_names_the_node() {
    let mut tracker = DeviceTracker::new();
    tracker.insert_device_into_tree(device(7, "USB\\A", None));
    tracker.insert_device_into_tree(device(9, "USB\\B", Some("USB\\A")));
    assert_eq!(
        tracker.set_device_state(&DeviceId::new("USB\\B"), DeviceState::Disable),
        Ok(StateChange { devinst: DeviceInstance(9), state: DeviceState::Disable })
    );
    assert_eq!(
        tracker.set_device_state(&DeviceId::new("USB\\X"), DeviceState::Enable),
        Err(Win32Error::DeviceNotExist)
    );
}

#[test]
fn iteration_visits_every_device_once() {
    let mut tracker = DeviceTracker::new();
    tracker.insert_device_into_tree(device(1, "USB\\A", None));
    tracker.insert_device_into_tree(device(2, "USB\\B", Some("USB\\A")));
    tracker.insert_device_into_tree(device(3, "USB\\C", Some("USB\\A")));
    tracker.insert_device_into_tree(device(4, "USB\\D", None));
    let mut seen = Vec::new();
    let mut walk = tracker.iter();
    while let Some(d) = walk.next() {
        seen.push(d.device_id.as_str().to_string());
    }
    assert_eq!(seen, vec!["USB\\D", "USB\\A", "USB\\C", "USB\\B"]);
}

#[test]
fn merge_places_children_below_parents() {
    let mut base = vec![device(1, "USB\\A", None)];
    let mut nested = device(2, "USB\\B", Some("USB\\A"));
    nested.devices.push(device(3, "HID\\C", Some("USB\\B")));
    let incoming = vec![nested, device(4, "HID\\E", Some("USB\\MISSING"))];
    DeviceTracker::merge_device_trees(&mut base, incoming);
    assert_eq!(base.len(), 2);
    assert_eq!(base[0].device_id, DeviceId::new("USB\\A"));
    assert_eq!(base[0].devices[0].device_id, DeviceId::new("USB\\B"));
    assert_eq!(base[0].devices[0].devices[0].device_id, DeviceId::new("HID\\C"));
    assert_eq!(base[0].devices[0].devices[0].tree_level, 2);
    assert_eq!(base[1].device_id, DeviceId::new("HID\\E"));
    assert_eq!(base[1].tree_level, 0);
}
