use comp_gate::device::{Device, DeviceId, DeviceInstance, DeviceState};
use comp_gate::hex::HexError;
use comp_gate::topology::DeviceTracker;
use comp_gate::whitelist::{contains_id, Whitelist, WhitelistError};

fn node(handle: u32, id: &str, parent: Option<&str>) -> Device {
    Device {
        devinst: DeviceInstance(handle),
        device_id: DeviceId::new(id),
        parent_id: parent.map(DeviceId::new),
        tree_level: 0,
        devices: Vec::new(),
        device_service: None,
        device_class: None,
        device_friendly_name: None,
        device_type: None,
        device_description: None,
    }
}

fn sample_tracker() -> DeviceTracker {
    let mut tracker = DeviceTracker::new();
    tracker.insert_device_into_tree(node(1, "USB\\A", None));
    tracker.insert_device_into_tree(node(2, "USB\\B", Some("USB\\A")));
    tracker.insert_device_into_tree(node(3, "USB\\C", None));
    tracker
}

#[test]
fn new_policy_authorises_the_roots() {
    let w = Whitelist::new(sample_tracker());
    assert_eq!(
        w.stored.as_deref(),
        Some("05000000000000005553425c4105000000000000005553425c43")
    );
    assert_eq!(w.load_whitelist(), Ok(vec![DeviceId::new("USB\\A"), DeviceId::new("USB\\C")]));
}

#[test]
fn stored_list_is_read_back() {
    let mut w = Whitelist::new(DeviceTracker::new());
    assert_eq!(w.stored.as_deref(), Some(""));
    assert_eq!(w.load_whitelist(), Ok(vec![]));
    let set = vec![DeviceId::new("X"), DeviceId::new("Y"), DeviceId::new("X")];
    w.store_whitelist(&set);
    assert_eq!(
        w.stored.as_deref(),
        Some("010000000000000058010000000000000059010000000000000058")
    );
    assert_eq!(w.load_whitelist(), Ok(vec![DeviceId::new("X"), DeviceId::new("Y")]));
}

#[test]
fn adding_and_removing_changes_only_the_list() {
    let mut w = Whitelist::new(sample_tracker());
    assert_eq!(w.whitelist_device("USB\\B"), Ok(()));
    assert_eq!(
        w.load_whitelist(),
        Ok(vec![DeviceId::new("USB\\A"), DeviceId::new("USB\\C"), DeviceId::new("USB\\B")])
    );
    assert_eq!(w.whitelist_device("USB\\B"), Ok(()));
    assert_eq!(w.load_whitelist().unwrap().len(), 3);
    assert_eq!(w.blacklist_device("USB\\A"), Ok(()));
    assert_eq!(w.load_whitelist(), Ok(vec![DeviceId::new("USB\\C"), DeviceId::new("USB\\B")]));
    assert_eq!(w.blacklist_device("USB\\MISSING"), Ok(()));
    assert_eq!(w.load_whitelist(), Ok(vec![DeviceId::new("USB\\C"), DeviceId::new("USB\\B")]));
    assert_eq!(w.device_tracker.devices.len(), 2);
}

#[test]
fn unreadable_store_is_reported() {
    let mut w = Whitelist::new(sample_tracker());
    w.stored = None;
    assert_eq!(w.load_whitelist(), Err(WhitelistError::StoreEmpty));
    assert_eq!(w.whitelist_device("A"), Err(WhitelistError::StoreEmpty));
    assert_eq!(w.blacklist_device("A"), Err(WhitelistError::StoreEmpty));
    assert_eq!(w.apply_whitelist(), Err(WhitelistError::StoreEmpty));
    assert_eq!(w.stored, None);
    w.stored = Some("abc".to_string());
    assert_eq!(w.load_whitelist(), Err(WhitelistError::Hex(HexError::InvalidLength)));
    w.stored = Some("zz".to_string());
    assert_eq!(w.load_whitelist(), Err(WhitelistError::Hex(HexError::InvalidChar(b'z'))));
    w.stored = Some("0100".to_string());
    assert_eq!(w.load_whitelist(), Err(WhitelistError::TruncatedLength));
    w.stored = Some("0200000000000000ff".to_string());
    assert_eq!(w.load_whitelist(), Err(WhitelistError::TruncatedText));
    w.stored = Some("0100000000000000ff".to_string());
    assert_eq!(w.load_whitelist(), Err(WhitelistError::InvalidUtf8));
    assert_eq!(w.whitelist_device("A"), Err(WhitelistError::InvalidUtf8));
    assert_eq!(w.stored.as_deref(), Some("0100000000000000ff"));
}

#[test]
fn apply_enables_listed_and_disables_others() {
    let mut w = Whitelist::new(sample_tracker());
    w.store_whitelist(&vec![DeviceId::new("USB\\A")]);
    let plan = w.apply_whitelist().unwrap();
    assert_eq!(
        plan,
        vec![
            (DeviceId::new("USB\\C"), DeviceState::Disable),
            (DeviceId::new("USB\\A"), DeviceState::Enable),
            (DeviceId::new("USB\\B"), DeviceState::Disable),
        ]
    );
}

#[test]
fn apply_twice_decides_the_same() {
    let mut w = Whitelist::new(sample_tracker());
    w.store_whitelist(&vec![DeviceId::new("USB\\B")]);
    let first = w.apply_whitelist().unwrap();
    let second = w.apply_whitelist().unwrap();
    assert_eq!(first, second);
    let mut states = std::collections::HashMap::new();
    for (id, state) in &first {
        states.insert(id.as_str().to_string(), *state);
    }
    let once = states.clone();
    for (id, state) in &second {
        states.insert(id.as_str().to_string(), *state);
    }
    assert_eq!(states, once);
    assert_eq!(once["USB\\B"], DeviceState::Enable);
    assert_eq!(once["USB\\A"], DeviceState::Disable);
    assert_eq!(once["USB\\C"], DeviceState::Disable);
}

#[test]
fn list_membership() {
    let list = vec![DeviceId::new("A"), DeviceId::new("B")];
    assert!(contains_id(&list, &DeviceId::new("B")));
    assert!(!contains_id(&list, &DeviceId::new("b")));
    assert!(!contains_id(&Vec::new(), &DeviceId::new("A")));
}
