use comp_gate::device::{Device, DeviceId, DeviceInstance};
use comp_gate::topology::DeviceTracker;

fn leaf(handle: u32, id: &str, parent: Option<&str>) -> Device {
    Device {
        devinst: DeviceInstance(handle),
        device_id: DeviceId::new(id),
        parent_id: parent.map(DeviceId::new),
        tree_level: 0,
        devices: Vec::new(),
        device_service: None,
        device_class: None,
        device_friendly_name: None,
        device_type: None,
        device_description: None,
    }
}

#[test]
fn block_of_a_device_without_attributes() {
    let d = leaf(1, "USB\\A", None);
    assert_eq!(
        d.render(),
        "Device ID: USB\\A\n - Device Service: None\n - Device Class: None\n - Device Friendly Name: None\n - Device Type: None\n - Device Description: None\n"
    );
}

#[test]
fn block_of_a_device_with_attributes() {
    let mut d = leaf(1, "USB\\A", None);
    d.tree_level = 2;
    d.device_service = Some("hidusb".to_string());
    d.device_class = Some("HIDClass".to_string());
    d.device_friendly_name = Some("Mouse".to_string());
    d.device_type = Some("T".to_string());
    d.device_description = Some("USB Input Device".to_string());
    assert_eq!(
        d.render(),
        "\t\tDevice ID: USB\\A\n\t\t - Device Service: hidusb\n\t\t - Device Class: HIDClass\n\t\t - Device Friendly Name: Mouse\n\t\t - Device Type: T\n\t\t - Device Description: USB Input Device\n"
    );
}

fn plain(level: usize, id: &str) -> String {
    let t = "\t".repeat(level);
    format!(
        "{t}Device ID: {id}\n{t} - Device Service: None\n{t} - Device Class: None\n{t} - Device Friendly Name: None\n{t} - Device Type: None\n{t} - Device Description: None\n"
    )
}

#[test]
fn topology_as_text() {
    let mut tracker = DeviceTracker::new();
    assert_eq!(tracker.render(), "");
    tracker.insert_device_into_tree(leaf(1, "A", None));
    tracker.insert_device_into_tree(leaf(2, "B", Some("A")));
    tracker.insert_device_into_tree(leaf(3, "C", Some("B")));
    tracker.insert_device_into_tree(leaf(4, "D", Some("A")));
    tracker.insert_device_into_tree(leaf(5, "E", None));
    let c = plain(2, "C");
    let b = format!("{}\t\tSub-device:\n{}\n", plain(1, "B"), c);
    let d = plain(1, "D");
    let a = format!("{}\tSub-device:\n{}\n\tSub-device:\n{}\n", plain(0, "A"), b, d);
    let e = plain(0, "E");
    assert_eq!(tracker.render(), format!("{}\n{}\n", a, e));
}
