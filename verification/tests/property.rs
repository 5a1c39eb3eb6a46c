use comp_gate::device::{device_filter_function, Device, DeviceInstance, DeviceState};
use comp_gate::error::{ConfigManagerError, DeviceStringPropertyError, Win32Error};
use comp_gate::property::{
    bytes_to_units, check_config_result, check_device_instance, check_size_probe,
    retrieve_device_id, retrieve_string_property, DeviceProperties, DeviceProperty,
    DEVPROP_MASK_TYPE, DEVPROP_TYPE_EMPTY, DEVPROP_TYPE_STRING,
};
use comp_gate::text::text_until_nul;
use windows_sys::Win32::Devices::DeviceAndDriverInstallation as di;
use windows_sys::Win32::Devices::Properties as props;

fn utf16_bytes(text: &str) -> Vec<u8> {
    text.encode_utf16().chain([0]).flat_map(|u| u.to_le_bytes()).collect()
}

fn text(value: &str) -> Result<String, DeviceStringPropertyError> {
    Ok(value.to_string())
}

fn answers(id: &str) -> DeviceProperties {
    DeviceProperties {
        device_id: Ok(id.to_string()),
        parent: Err(DeviceStringPropertyError::PropertyNotString),
        service: Err(DeviceStringPropertyError::PropertyNotString),
        class: Err(DeviceStringPropertyError::PropertyNotString),
        device_type: Err(DeviceStringPropertyError::PropertyNotString),
        description: Err(DeviceStringPropertyError::PropertyNotString),
        friendly_name: Err(DeviceStringPropertyError::PropertyNotString),
    }
}

#[test]
fn property_constants_are_the_systems() {
    assert_eq!(DEVPROP_MASK_TYPE, props::DEVPROP_MASK_TYPE);
    assert_eq!(DEVPROP_TYPE_EMPTY, props::DEVPROP_TYPE_EMPTY);
    assert_eq!(DEVPROP_TYPE_STRING, props::DEVPROP_TYPE_STRING);
    assert_eq!(DeviceState::Enable.code(), di::DICS_ENABLE);
    assert_eq!(DeviceState::Disable.code(), di::DICS_DISABLE);
}

#[test]
fn bytes_pair_up_low_byte_first() {
    assert_eq!(bytes_to_units(&[0x41, 0x00, 0x34, 0x12]), vec![0x0041, 0x1234]);
    assert_eq!(bytes_to_units(&[0xff, 0xff, 0x01]), vec![0xffff]);
    assert_eq!(bytes_to_units(&[]), Vec::<u16>::new());
    assert_eq!(bytes_to_units(&[9]), Vec::<u16>::new());
}

#[test]
fn string_properties_end_at_the_first_zero() {
    assert_eq!(text_until_nul(&[0x48, 0x69, 0, 0x21]), "Hi");
    match DeviceProperty::from_raw(&utf16_bytes("usbhub3"), 18) {
        DeviceProperty::StringProperty { data } => assert_eq!(data, "usbhub3"),
        other => panic!("{:?}", other),
    }
    match DeviceProperty::from_raw(&[0x41, 0, 0x42, 0, 0, 0, 0x43, 0], 18 | 0x2000) {
        DeviceProperty::StringProperty { data } => assert_eq!(data, "AB"),
        other => panic!("{:?}", other),
    }
    match DeviceProperty::from_raw(&[0x00, 0xd8, 0x41, 0x00], 18) {
        DeviceProperty::StringProperty { data } => assert_eq!(data, "\u{fffd}A"),
        other => panic!("{:?}", other),
    }
}

#[test]
fn other_properties_keep_their_bytes() {
    assert!(matches!(DeviceProperty::from_raw(&[1, 2], 0), DeviceProperty::EmptyProperty));
    assert!(matches!(DeviceProperty::from_raw(&[], 0x1000), DeviceProperty::EmptyProperty));
    match DeviceProperty::from_raw(&[1, 2, 3], 7) {
        DeviceProperty::UnsupportedProperty { raw_data, property_type } => {
            assert_eq!(raw_data, vec![1, 2, 3]);
            assert_eq!(property_type, 7);
        },
        other => panic!("{:?}", other),
    }
    match DeviceProperty::from_raw(&[9], 0x2012 + 1) {
        DeviceProperty::UnsupportedProperty { raw_data, property_type } => {
            assert_eq!(raw_data, vec![9]);
            assert_eq!(property_type, 0x2013);
        },
        other => panic!("{:?}", other),
    }
}

#[test]
fn string_property_or_its_error() {
    assert_eq!(retrieve_string_property(&Ok((utf16_bytes("HIDClass"), 18))), text("HIDClass"));
    assert_eq!(
        retrieve_string_property(&Ok((vec![1, 0, 0, 0], 7))),
        Err(DeviceStringPropertyError::PropertyNotString)
    );
    assert_eq!(
        retrieve_string_property(&Ok((vec![], 0))),
        Err(DeviceStringPropertyError::PropertyNotString)
    );
    assert_eq!(
        retrieve_string_property(&Err(Win32Error::InvalidParameter)),
        Err(DeviceStringPropertyError::Win32Error(Win32Error::InvalidParameter))
    );
}

#[test]
fn invalid_handles_are_refused() {
    assert_eq!(check_device_instance(true), Ok(()));
    assert_eq!(check_device_instance(false), Err(Win32Error::InvalidParameter));
}

#[test]
fn size_probe_results() {
    assert_eq!(check_size_probe(0), Ok(()));
    assert_eq!(check_size_probe(26), Ok(()));
    assert_eq!(
        check_size_probe(13),
        Err(Win32Error::ConfigManagerError(ConfigManagerError::UnknownError(13)))
    );
    assert_eq!(
        check_config_result(26),
        Err(Win32Error::ConfigManagerError(ConfigManagerError::UnknownError(26)))
    );
}

#[test]
fn config_manager_results() {
    assert_eq!(check_config_result(0), Ok(()));
    assert_eq!(
        check_config_result(13),
        Err(Win32Error::ConfigManagerError(ConfigManagerError::UnknownError(13)))
    );
    assert_eq!(DeviceInstance::try_from(7, true), Ok(DeviceInstance(7)));
    assert_eq!(
        DeviceInstance::try_from(7, false),
        Err(ConfigManagerError::InvalidDeviceInstance)
    );
    assert_eq!(DeviceInstance::located(0, 9), Ok(DeviceInstance(9)));
    assert_eq!(DeviceInstance::located(13, 9), Err(ConfigManagerError::UnknownError(13)));
}

#[test]
fn device_identity_from_the_buffer() {
    let buffer: Vec<u16> = "usb\\vid_1\\5".encode_utf16().chain([0, 0x41]).collect();
    assert_eq!(retrieve_device_id(&buffer, 12), "USB\\VID_1\\5");
    assert_eq!(retrieve_device_id(&buffer, 4), "USB");
    assert_eq!(retrieve_device_id(&buffer, 1), "");
    assert_eq!(retrieve_device_id(&buffer, 0), "USB\\VID_1\\5");
    assert_eq!(retrieve_device_id(&buffer, 14), "USB\\VID_1\\5\0A");
    assert_eq!(retrieve_device_id(&buffer, 99), "USB\\VID_1\\5\0A");
    assert_eq!(retrieve_device_id(&[], 0), "");
}

#[test]
fn device_from_answers() {
    let mut given = answers("USB\\VID_1\\5");
    given.parent = text("usb\\root_hub30\\4");
    given.service = text("HidUsb");
    given.class = text("HIDClass");
    given.device_type = text("type");
    given.description = text("USB Input Device");
    given.friendly_name = text("Mouse");
    let device = Device::try_from(DeviceInstance(42), given).unwrap();
    assert_eq!(device.devinst, DeviceInstance(42));
    assert_eq!(device.device_id.as_str(), "USB\\VID_1\\5");
    assert_eq!(device.parent_id.as_ref().map(|p| p.as_str()), Some("USB\\ROOT_HUB30\\4"));
    assert_eq!(device.tree_level, 0);
    assert!(device.devices.is_empty());
    assert_eq!(device.device_service.as_deref(), Some("hidusb"));
    assert_eq!(device.device_class.as_deref(), Some("HIDClass"));
    assert_eq!(device.device_type.as_deref(), Some("type"));
    assert_eq!(device.device_description.as_deref(), Some("USB Input Device"));
    assert_eq!(device.device_friendly_name.as_deref(), Some("Mouse"));
}

#[test]
fn device_without_optional_answers() {
    let device = Device::try_from(DeviceInstance(1), answers("X")).unwrap();
    assert!(device.parent_id.is_none());
    assert!(device.device_service.is_none());
    assert!(device.device_class.is_none());
    assert!(device.device_type.is_none());
    assert!(device.device_description.is_none());
    assert!(device.device_friendly_name.is_none());
}

#[test]
fn device_without_identity_is_an_error() {
    let mut given = answers("X");
    given.device_id = Err(Win32Error::InvalidParameter);
    given.service = text("hidusb");
    assert!(matches!(
        Device::try_from(DeviceInstance(1), given),
        Err(Win32Error::InvalidParameter)
    ));
}

#[test]
fn hubs_are_recognised_by_their_service() {
    for (service, hub) in [
        (Some("usbhub3"), true),
        (Some("usbhub"), true),
        (Some("USBHUB3"), true),
        (Some("UsbHub"), true),
        (Some("usbhub30"), false),
        (Some("hidusb"), false),
        (Some(""), false),
        (None, false),
    ] {
        let mut given = answers("X");
        if let Some(s) = service {
            given.service = text(s);
        }
        let device = Device::try_from(DeviceInstance(1), given).unwrap();
        assert_eq!(device_filter_function(&device), hub, "{:?}", service);
    }
}
