use comp_gate::device::{Device, DeviceId, DeviceInstance};
use comp_gate::error::{ConfigManagerError, DeviceInsertionError, DeviceStringPropertyError, Win32Error};
use comp_gate::property::DeviceProperties;
use comp_gate::topology::{
    convert_devices_into_tree, enumeration_step, root_position, DeviceIterator, DeviceTracker,
    EnumerationStep,
};

fn leaf(handle: u32, id: &str, parent: Option<&str>) -> Device {
    Device {
        devinst: DeviceInstance(handle),
        device_id: DeviceId::new(id),
        parent_id: parent.map(DeviceId::new),
        tree_level: 0,
        devices: Vec::new(),
        device_service: None,
        device_class: None,
        device_friendly_name: None,
        device_type: None,
        device_description: None,
    }
}

fn driven(handle: u32, id: &str, parent: Option<&str>, service: &str) -> Device {
    let mut d = leaf(handle, id, parent);
    d.device_service = Some(service.to_string());
    d
}

fn probe(
    handle: u32,
    id: &str,
    parent: Option<&str>,
    service: Option<&str>,
) -> Result<(DeviceInstance, DeviceProperties), ConfigManagerError> {
    let missing = || Err(DeviceStringPropertyError::PropertyNotString);
    Ok((
        DeviceInstance(handle),
        DeviceProperties {
            device_id: Ok(id.to_string()),
            parent: parent.map(|p| p.to_string()).ok_or(DeviceStringPropertyError::PropertyNotString),
            service: service
                .map(|p| p.to_string())
                .ok_or(DeviceStringPropertyError::PropertyNotString),
            class: missing(),
            device_type: missing(),
            description: missing(),
            friendly_name: missing(),
        },
    ))
}

fn shape(devices: &[Device]) -> String {
    let mut out = String::new();
    for d in devices {
        out.push_str(&format!("{}@{}", d.device_id.as_str(), d.tree_level));
        if !d.devices.is_empty() {
            out.push_str(&format!("[{}]", shape(&d.devices)));
        }
        out.push(' ');
    }
    out.trim_end().to_string()
}

#[test]
fn flat_list_becomes_a_forest() {
    let flat = vec![
        leaf(1, "C", Some("B")),
        leaf(2, "A", None),
        leaf(3, "B", Some("A")),
        leaf(4, "D", Some("MISSING")),
        leaf(5, "E", Some("C")),
    ];
    let forest = convert_devices_into_tree(flat);
    assert_eq!(shape(&forest), "A@0[B@1[C@2[E@3]]] D@0");
}

#[test]
fn flat_list_in_any_order() {
    let flat = vec![
        leaf(5, "E", Some("C")),
        leaf(3, "B", Some("A")),
        leaf(1, "C", Some("B")),
        leaf(2, "A", None),
    ];
    let forest = convert_devices_into_tree(flat);
    assert_eq!(shape(&forest), "A@0[B@1[C@2[E@3]]]");
    assert_eq!(shape(&convert_devices_into_tree(Vec::new())), "");
}

#[test]
fn levels_of_the_flat_list_are_recomputed() {
    let mut a = leaf(1, "A", None);
    a.tree_level = 7;
    let mut b = leaf(2, "B", Some("A"));
    b.tree_level = 9;
    assert_eq!(shape(&convert_devices_into_tree(vec![b, a])), "A@0[B@1]");
}

#[test]
fn parents_that_declare_each_other_stay_apart() {
    let flat = vec![leaf(1, "A", Some("B")), leaf(2, "B", Some("A")), leaf(3, "S", Some("S"))];
    let forest = convert_devices_into_tree(flat);
    assert_eq!(shape(&forest), "B@0[A@1] S@0");
}

#[test]
fn root_positions() {
    let roots = vec![leaf(1, "A", None), leaf(2, "B", None), leaf(3, "A", None)];
    assert_eq!(root_position(&roots, &DeviceId::new("A")), Some(0));
    assert_eq!(root_position(&roots, &DeviceId::new("B")), Some(1));
    assert_eq!(root_position(&roots, &DeviceId::new("C")), None);
}

#[test]
fn listing_leaves_hubs_out() {
    let found = vec![
        driven(1, "HUB", None, "usbhub3"),
        driven(2, "MOUSE", Some("HUB"), "hidusb"),
        driven(3, "OLDHUB", None, "usbhub"),
        leaf(4, "KEYS", Some("MOUSE")),
    ];
    let forest = DeviceTracker::get_listed_devices(found);
    assert_eq!(shape(&forest), "MOUSE@0[KEYS@1]");
}

#[test]
fn listing_keeps_the_last_of_equal_identities() {
    let found = vec![leaf(1, "A", None), leaf(2, "B", Some("A")), leaf(3, "A", None)];
    let forest = DeviceTracker::get_listed_devices(found);
    assert_eq!(shape(&forest), "A@0[B@1]");
    assert_eq!(forest[0].devinst, DeviceInstance(3));
}

#[test]
fn load_merges_the_classes() {
    let usb = vec![
        driven(1, "USB\\ROOT", None, "usbhub3"),
        driven(2, "USB\\DEV", Some("USB\\ROOT"), "usbccgp"),
        driven(3, "USB\\IF", Some("USB\\DEV"), "hidusb"),
    ];
    let hid = vec![leaf(4, "HID\\KEYS", Some("USB\\IF")), leaf(5, "HID\\FREE", Some("BTH\\X"))];
    let tracker = DeviceTracker::load(vec![Ok(usb), Ok(hid)]).unwrap();
    assert_eq!(shape(&tracker.devices), "USB\\DEV@0[USB\\IF@1[HID\\KEYS@2]] HID\\FREE@0");
}

#[test]
fn load_resolves_orphans_across_classes() {
    let hid = vec![leaf(4, "HID\\KEYS", Some("USB\\IF")), leaf(6, "HID\\SUB", Some("HID\\KEYS"))];
    let usb = vec![leaf(3, "USB\\IF", None)];
    let tracker = DeviceTracker::load(vec![Ok(hid), Ok(usb)]).unwrap();
    assert_eq!(shape(&tracker.devices), "USB\\IF@0[HID\\KEYS@1[HID\\SUB@2]]");
}

#[test]
fn load_fails_with_the_first_failure() {
    assert!(matches!(
        DeviceTracker::load(vec![Ok(vec![leaf(1, "A", None)]), Err(Win32Error::AccessDenied)]),
        Err(Win32Error::AccessDenied)
    ));
    assert!(matches!(
        DeviceTracker::load(vec![Err(Win32Error::InvalidHandle), Err(Win32Error::AccessDenied)]),
        Err(Win32Error::InvalidHandle)
    ));
    assert_eq!(shape(&DeviceTracker::load(Vec::new()).unwrap().devices), "");
}

#[test]
fn enumeration_steps() {
    assert_eq!(enumeration_step(true, 0), EnumerationStep::Next);
    assert_eq!(enumeration_step(true, 259), EnumerationStep::Next);
    assert_eq!(enumeration_step(false, 259), EnumerationStep::Done);
    assert_eq!(enumeration_step(false, 5), EnumerationStep::Failed(Win32Error::AccessDenied));
    assert_eq!(enumeration_step(false, 0), EnumerationStep::Failed(Win32Error::Success));
}

#[test]
fn connected_device_is_taken_up() {
    let mut tracker = DeviceTracker::new();
    assert_eq!(tracker.insert_device_by_id(probe(1, "USB\\A", None, Some("UsbCcgp"))), Ok(()));
    assert_eq!(tracker.insert_device_by_id(probe(2, "HID\\B", Some("usb\\a"), None)), Ok(()));
    assert_eq!(shape(&tracker.devices), "USB\\A@0[HID\\B@1]");
    assert_eq!(tracker.devices[0].device_service.as_deref(), Some("usbccgp"));
}

#[test]
fn connected_hub_is_refused() {
    let mut tracker = DeviceTracker::new();
    tracker.insert_device_into_tree(leaf(1, "USB\\A", None));
    assert_eq!(
        tracker.insert_device_by_id(probe(2, "USB\\HUB", Some("USB\\A"), Some("USBHUB3"))),
        Err(DeviceInsertionError::DeviceFilteredNotUsb)
    );
    assert_eq!(
        tracker.insert_device_by_id(probe(3, "USB\\HUB2", None, Some("usbhub"))),
        Err(DeviceInsertionError::DeviceFilteredNotUsb)
    );
    assert_eq!(shape(&tracker.devices), "USB\\A@0");
}

#[test]
fn failed_probe_is_handed_on() {
    let mut tracker = DeviceTracker::new();
    tracker.insert_device_into_tree(leaf(1, "USB\\A", None));
    assert_eq!(
        tracker.insert_device_by_id(Err(ConfigManagerError::UnknownError(13))),
        Err(DeviceInsertionError::Win32Error(Win32Error::ConfigManagerError(
            ConfigManagerError::UnknownError(13)
        )))
    );
    let mut broken = probe(2, "X", None, None).unwrap();
    broken.1.device_id = Err(Win32Error::InvalidParameter);
    assert_eq!(
        tracker.insert_device_by_id(Ok(broken)),
        Err(DeviceInsertionError::Win32Error(Win32Error::InvalidParameter))
    );
    assert_eq!(shape(&tracker.devices), "USB\\A@0");
}

#[test]
fn arrival_replaces_what_was_there() {
    let mut tracker = DeviceTracker::new();
    tracker.insert_device_into_tree(leaf(1, "A", None));
    tracker.insert_device_into_tree(leaf(2, "B", Some("A")));
    tracker.insert_device_into_tree(leaf(3, "C", Some("B")));
    tracker.insert_device_into_tree(leaf(4, "B", Some("A")));
    assert_eq!(shape(&tracker.devices), "A@0[B@1]");
    assert_eq!(tracker.devices[0].devices[0].devinst, DeviceInstance(4));
}

#[test]
fn orphan_follows_its_parent_below_another_device() {
    let mut tracker = DeviceTracker::new();
    tracker.insert_device_into_tree(leaf(1, "G", None));
    tracker.insert_device_into_tree(leaf(2, "C", Some("P")));
    tracker.insert_device_into_tree(leaf(3, "C1", Some("C")));
    assert_eq!(shape(&tracker.devices), "G@0 C@0[C1@1]");
    tracker.insert_device_into_tree(leaf(4, "P", Some("G")));
    assert_eq!(shape(&tracker.devices), "G@0[P@1[C@2[C1@3]]]");
}

#[test]
fn connected_parent_takes_its_orphan_along() {
    let mut tracker = DeviceTracker::new();
    assert_eq!(tracker.insert_device_by_id(probe(1, "G", None, None)), Ok(()));
    assert_eq!(tracker.insert_device_by_id(probe(2, "C", Some("P"), None)), Ok(()));
    assert_eq!(tracker.insert_device_by_id(probe(3, "P", Some("G"), None)), Ok(()));
    assert_eq!(shape(&tracker.devices), "G@0[P@1[C@2]]");
}

#[test]
fn merge_leaves_no_orphan_whose_parent_is_there() {
    let mut base = vec![leaf(1, "A", None), leaf(2, "C", Some("B"))];
    DeviceTracker::merge_device_trees(&mut base, vec![leaf(3, "B", Some("A"))]);
    assert_eq!(shape(&base), "A@0[B@1[C@2]]");
}

#[test]
fn load_resolves_orphans_whatever_the_order_of_the_classes() {
    let first = vec![leaf(1, "A", None), leaf(2, "C", Some("B")), leaf(3, "D", Some("C"))];
    let second = vec![leaf(4, "B", Some("A"))];
    let tracker = DeviceTracker::load(vec![Ok(first), Ok(second)]).unwrap();
    assert_eq!(shape(&tracker.devices), "A@0[B@1[C@2[D@3]]]");
}

#[test]
fn devices_that_declare_each_other_do_not_swallow_each_other() {
    let mut tracker = DeviceTracker::new();
    tracker.insert_device_into_tree(leaf(1, "X", Some("Y")));
    tracker.insert_device_into_tree(leaf(2, "Y", Some("X")));
    assert_eq!(shape(&tracker.devices), "Y@0[X@1]");
    tracker.insert_device_into_tree(leaf(3, "Z", Some("X")));
    assert_eq!(shape(&tracker.devices), "Y@0[X@1[Z@2]]");
}

#[test]
fn device_that_declares_itself_stays_a_root() {
    let mut tracker = DeviceTracker::new();
    tracker.insert_device_into_tree(leaf(1, "S", Some("S")));
    assert_eq!(shape(&tracker.devices), "S@0");
    tracker.insert_device_into_tree(leaf(2, "T", Some("S")));
    assert_eq!(shape(&tracker.devices), "S@0[T@1]");
}

#[test]
fn several_orphans_are_adopted_with_their_subtrees() {
    let mut tracker = DeviceTracker::new();
    tracker.insert_device_into_tree(leaf(1, "X", Some("P")));
    tracker.insert_device_into_tree(leaf(2, "KEEP", None));
    tracker.insert_device_into_tree(leaf(3, "Y", Some("P")));
    tracker.insert_device_into_tree(leaf(4, "Y1", Some("Y")));
    tracker.insert_device_into_tree(leaf(5, "Y2", Some("Y1")));
    tracker.insert_device_into_tree(leaf(6, "P", Some("ABSENT")));
    assert_eq!(shape(&tracker.devices), "KEEP@0 P@0[X@1 Y@1[Y1@2[Y2@3]]]");
}

#[test]
fn walk_starts_afresh_each_time() {
    let mut tracker = DeviceTracker::new();
    tracker.insert_device_into_tree(leaf(1, "A", None));
    tracker.insert_device_into_tree(leaf(2, "B", Some("A")));
    for _ in 0..2 {
        let mut walk = tracker.iter();
        let mut seen = Vec::new();
        while let Some(d) = walk.next() {
            seen.push(d.device_id.as_str().to_string());
        }
        assert_eq!(seen, vec!["A", "B"]);
        assert!(walk.next().is_none());
    }
    let none: Vec<Device> = Vec::new();
    let mut empty = DeviceIterator::new(&none);
    assert!(empty.next().is_none());
}

#[test]
fn level_follows_the_parent_after_any_sequence() {
    fn check(devices: &[Device], level: u32, parent: Option<&str>, seen: &mut Vec<String>) {
        for d in devices {
            assert_eq!(d.tree_level, level);
            if let Some(p) = parent {
                assert_eq!(d.parent_id.as_ref().map(|x| x.as_str()), Some(p));
            }
            assert!(!seen.contains(&d.device_id.as_str().to_string()));
            seen.push(d.device_id.as_str().to_string());
            check(&d.devices, level + 1, Some(d.device_id.as_str()), seen);
        }
    }
    let mut tracker = DeviceTracker::new();
    let names = ["A", "B", "C", "D", "E", "F"];
    let mut step = 7usize;
    for round in 0..200usize {
        step = (step * 31 + 11) % 1009;
        let id = names[step % 6];
        let parent = names[(step / 6) % 6];
        if step % 5 == 0 {
            tracker.remove_device_by_id(&DeviceId::new(id));
        } else {
            let parent = if step % 7 == 0 { None } else { Some(parent) };
            tracker.insert_device_into_tree(leaf(round as u32, id, parent));
        }
        check(&tracker.devices, 0, None, &mut Vec::new());
        for root in &tracker.devices {
            if let Some(parent) = &root.parent_id {
                let mut own = Vec::new();
                check(std::slice::from_ref(root), 0, None, &mut own);
                let elsewhere = tracker.find(parent).is_some()
                    && !own.contains(&parent.as_str().to_string());
                assert!(!elsewhere, "{} waits for {}", root.device_id.as_str(), parent.as_str());
            }
        }
    }
}
