use comp_gate::device::{Device, DeviceId, DeviceInstance, DeviceState};
use comp_gate::error::{ConfigManagerError, Win32Error};
use comp_gate::ioapi::{
    command_from_text, connection_log, convert_bytes_to_payload, drain_commands, first_token,
    handle_ioapi_message, join_logs, parse_cmd_message, state_change_reply, IoApiAction,
    IoApiCommand, IoApiRequest,
};
use comp_gate::topology::{DeviceTracker, StateChange};

fn node(handle: u32, id: &str, parent: Option<&str>) -> Device {
    Device {
        devinst: DeviceInstance(handle),
        device_id: DeviceId::new(id),
        parent_id: parent.map(DeviceId::new),
        tree_level: 0,
        devices: Vec::new(),
        device_service: None,
        device_class: None,
        device_friendly_name: None,
        device_type: None,
        device_description: None,
    }
}

fn frame(body: &[u8]) -> Vec<u8> {
    convert_bytes_to_payload(body)
}

#[test]
fn payload_has_big_endian_length() {
    assert_eq!(convert_bytes_to_payload(b""), vec![0, 0, 0, 0]);
    assert_eq!(convert_bytes_to_payload(b"abc"), vec![0, 0, 0, 3, b'a', b'b', b'c']);
    let long = vec![7u8; 0x01_02_03];
    let framed = convert_bytes_to_payload(&long);
    assert_eq!(&framed[..4], &[0, 1, 2, 3]);
    assert_eq!(framed.len(), 4 + 0x01_02_03);
}

#[test]
fn command_codes() {
    assert_eq!(IoApiCommand::GetDeviceList.cmd_code(), 2);
    assert_eq!(IoApiCommand::DisableDevice(DeviceId::new("X")).cmd_code(), 3);
    assert_eq!(IoApiCommand::EnableDevice(DeviceId::new("X")).cmd_code(), 4);
    assert_eq!(IoApiCommand::GetDeviceConnectionLogs.cmd_code(), 5);
}

#[test]
fn request_frames() {
    assert_eq!(IoApiRequest::from_command(IoApiCommand::GetDeviceList).as_bytes(), &[0, 0, 0, 1, 2]);
    assert_eq!(
        IoApiRequest::from_command(IoApiCommand::GetDeviceConnectionLogs).as_bytes(),
        &[0, 0, 0, 1, 5]
    );
    assert_eq!(
        IoApiRequest::from_command(IoApiCommand::DisableDevice(DeviceId::new("AB"))).as_bytes(),
        &[0, 0, 0, 3, 3, b'A', b'B']
    );
    assert_eq!(
        IoApiRequest::from_command(IoApiCommand::EnableDevice(DeviceId::new("é"))).as_bytes(),
        &[0, 0, 0, 3, 4, 0xc3, 0xa9]
    );
}

#[test]
fn first_token_stops_at_space() {
    assert_eq!(first_token("USB\\A rest of it"), "USB\\A");
    assert_eq!(first_token("single"), "single");
    assert_eq!(first_token(" lead"), "");
    assert_eq!(first_token(""), "");
}

fn is_disable(c: &Option<IoApiCommand>, id: &str) -> bool {
    matches!(c, Some(IoApiCommand::DisableDevice(d)) if d.as_str() == id)
}

fn is_enable(c: &Option<IoApiCommand>, id: &str) -> bool {
    matches!(c, Some(IoApiCommand::EnableDevice(d)) if d.as_str() == id)
}

#[test]
fn bodies_are_parsed() {
    assert!(matches!(parse_cmd_message(&[2]), Some(IoApiCommand::GetDeviceList)));
    assert!(matches!(parse_cmd_message(&[5]), Some(IoApiCommand::GetDeviceConnectionLogs)));
    assert!(matches!(parse_cmd_message(&[2, b'x']), Some(IoApiCommand::GetDeviceList)));
    assert!(is_disable(&parse_cmd_message(b"\x03USB\\VID_1"), "USB\\VID_1"));
    assert!(is_enable(&parse_cmd_message(b"\x04USB\\VID_1 and more"), "USB\\VID_1"));
    assert!(is_enable(&command_from_text(4, "A B"), "A"));
}

#[test]
fn malformed_bodies_are_refused() {
    assert!(parse_cmd_message(&[]).is_none());
    assert!(parse_cmd_message(&[0]).is_none());
    assert!(parse_cmd_message(&[1]).is_none());
    assert!(parse_cmd_message(&[6, b'A']).is_none());
    assert!(parse_cmd_message(&[255]).is_none());
    assert!(parse_cmd_message(&[3]).is_none());
    assert!(parse_cmd_message(&[4]).is_none());
    assert!(parse_cmd_message(&[3, b' ', b'A']).is_none());
    assert!(command_from_text(3, "").is_none());
    assert!(command_from_text(7, "A").is_none());
}

#[test]
fn bytes_that_are_no_text_get_the_replacement_character() {
    assert!(is_disable(&parse_cmd_message(&[3, b'A', 0xff, b'B']), "A\u{fffd}B"));
}

#[test]
fn commands_from_opcode_and_arguments() {
    assert!(matches!(IoApiCommand::try_from(2, vec![]), Ok(IoApiCommand::GetDeviceList)));
    assert!(matches!(
        IoApiCommand::try_from(5, vec!["x".to_string()]),
        Ok(IoApiCommand::GetDeviceConnectionLogs)
    ));
    assert!(is_disable(&IoApiCommand::try_from(3, vec!["A".to_string(), "B".to_string()]).ok(), "A"));
    assert!(is_enable(&IoApiCommand::try_from(4, vec!["".to_string()]).ok(), ""));
    assert!(IoApiCommand::try_from(3, vec![]).is_err());
    assert!(IoApiCommand::try_from(4, vec![]).is_err());
    assert!(IoApiCommand::try_from(9, vec!["A".to_string()]).is_err());
}

#[test]
fn commands_from_words() {
    assert!(matches!(IoApiCommand::try_from_tokens(&["list"]), Ok(IoApiCommand::GetDeviceList)));
    assert!(matches!(
        IoApiCommand::try_from_tokens(&["logs", "x"]),
        Ok(IoApiCommand::GetDeviceConnectionLogs)
    ));
    assert!(is_disable(&IoApiCommand::try_from_tokens(&["disable", "USB\\A"]).ok(), "USB\\A"));
    assert!(is_enable(&IoApiCommand::try_from_tokens(&["enable", "USB\\A", "x"]).ok(), "USB\\A"));
    assert!(IoApiCommand::try_from_tokens(&[]).is_err());
    assert!(IoApiCommand::try_from_tokens(&["disable"]).is_err());
    assert!(IoApiCommand::try_from_tokens(&["enable"]).is_err());
    assert!(IoApiCommand::try_from_tokens(&["List"]).is_err());
    assert!(IoApiCommand::try_from_tokens(&["get_device_list"]).is_err());
}

#[test]
fn whole_frames_are_drained_in_order() {
    let mut buffer = Vec::new();
    buffer.extend(frame(&[2]));
    buffer.extend(frame(b"\x03USB\\A"));
    buffer.extend(frame(&[5]));
    let commands = drain_commands(&mut buffer);
    assert_eq!(commands.len(), 3);
    assert!(matches!(commands[0], IoApiCommand::GetDeviceList));
    assert!(is_disable(&Some(IoApiCommand::DisableDevice(DeviceId::new("USB\\A"))), "USB\\A"));
    assert!(matches!(&commands[1], IoApiCommand::DisableDevice(d) if d.as_str() == "USB\\A"));
    assert!(matches!(commands[2], IoApiCommand::GetDeviceConnectionLogs));
    assert!(buffer.is_empty());
}

#[test]
fn malformed_frame_is_skipped_and_the_next_is_served() {
    let mut buffer = Vec::new();
    buffer.extend(frame(&[9, b'x']));
    buffer.extend(frame(&[3]));
    buffer.extend(frame(&[]));
    buffer.extend(frame(b"\x04USB\\A"));
    let commands = drain_commands(&mut buffer);
    assert_eq!(commands.len(), 1);
    assert!(matches!(&commands[0], IoApiCommand::EnableDevice(d) if d.as_str() == "USB\\A"));
    assert!(buffer.is_empty());
}

#[test]
fn partial_frames_wait_for_more_bytes() {
    let mut buffer = vec![0, 0];
    assert!(drain_commands(&mut buffer).is_empty());
    assert_eq!(buffer, vec![0, 0]);
    buffer.extend([0, 3, 3, b'A']);
    assert!(drain_commands(&mut buffer).is_empty());
    assert_eq!(buffer, vec![0, 0, 0, 3, 3, b'A']);
    buffer.extend([b'B', 0, 0, 0, 1]);
    let commands = drain_commands(&mut buffer);
    assert_eq!(commands.len(), 1);
    assert!(matches!(&commands[0], IoApiCommand::DisableDevice(d) if d.as_str() == "AB"));
    assert_eq!(buffer, vec![0, 0, 0, 1]);
    buffer.push(2);
    let commands = drain_commands(&mut buffer);
    assert!(matches!(commands[0], IoApiCommand::GetDeviceList));
    assert!(buffer.is_empty());
}

#[test]
fn state_change_replies() {
    assert_eq!(state_change_reply(DeviceState::Enable, Ok(())), "Device enabled.");
    assert_eq!(state_change_reply(DeviceState::Disable, Ok(())), "Device disabled.");
    assert_eq!(
        state_change_reply(DeviceState::Enable, Err(Win32Error::DeviceNotExist)),
        "Enabling device failed: Device does not exist"
    );
    assert_eq!(
        state_change_reply(
            DeviceState::Disable,
            Err(Win32Error::ConfigManagerError(ConfigManagerError::UnknownError(23)))
        ),
        "Disabling device failed: Config manager error"
    );
}

#[test]
fn logs_are_joined_with_line_ends() {
    assert_eq!(join_logs(&vec![]), "");
    assert_eq!(join_logs(&vec!["a".to_string(), "b".to_string()]), "a\nb\n");
    assert_eq!(connection_log(true, &DeviceId::new("USB\\A")), "USB Device connected: USB\\A");
    assert_eq!(connection_log(false, &DeviceId::new("USB\\A")), "USB Device disconnected: USB\\A");
}

#[test]
fn requests_are_dispatched() {
    let mut tracker = DeviceTracker::new();
    tracker.insert_device_into_tree(node(11, "USB\\A", None));
    let logs = vec!["USB Device connected: USB\\A".to_string()];
    match handle_ioapi_message(&IoApiCommand::GetDeviceList, &tracker, &logs) {
        IoApiAction::Respond(text) => assert_eq!(text, tracker.render()),
        other => panic!("{:?}", other),
    }
    match handle_ioapi_message(&IoApiCommand::GetDeviceConnectionLogs, &tracker, &logs) {
        IoApiAction::Respond(text) => assert_eq!(text, "USB Device connected: USB\\A\n"),
        other => panic!("{:?}", other),
    }
    match handle_ioapi_message(&IoApiCommand::DisableDevice(DeviceId::new("USB\\A")), &tracker, &logs)
    {
        IoApiAction::ChangeState(change) => assert_eq!(
            change,
            StateChange { devinst: DeviceInstance(11), state: DeviceState::Disable }
        ),
        other => panic!("{:?}", other),
    }
    match handle_ioapi_message(&IoApiCommand::EnableDevice(DeviceId::new("USB\\A")), &tracker, &logs)
    {
        IoApiAction::ChangeState(change) => assert_eq!(
            change,
            StateChange { devinst: DeviceInstance(11), state: DeviceState::Enable }
        ),
        other => panic!("{:?}", other),
    }
    match handle_ioapi_message(&IoApiCommand::EnableDevice(DeviceId::new("USB\\X")), &tracker, &logs)
    {
        IoApiAction::Respond(text) => {
            assert_eq!(text, "Enabling device failed: Device does not exist")
        },
        other => panic!("{:?}", other),
    }
    match handle_ioapi_message(&IoApiCommand::DisableDevice(DeviceId::new("USB\\X")), &tracker, &logs)
    {
        IoApiAction::Respond(text) => {
            assert_eq!(text, "Disabling device failed: Device does not exist")
        },
        other => panic!("{:?}", other),
    }
}
