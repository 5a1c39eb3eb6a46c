use comp_gate::error::{ConfigManagerError, PollEventError, TryRecvError, Win32Error};
use comp_gate::hotplug::{
    get_device_id, handle_device_arrival, handle_device_removal, next_step, pump_step,
    window_proc, LoopStep, Notification, PumpStep, UsbConnectionCallbacksHandle,
    UsbConnectionEvent, DBT_DEVICEARRIVAL, DBT_DEVICEREMOVECOMPLETE, DBT_DEVTYP_DEVICEINTERFACE,
    WM_DEVICECHANGE,
};
use comp_gate::text::nul_position;
use windows_sys::Win32::UI::WindowsAndMessaging as wm;

#[test]
fn hotplug_constants_are_the_systems() {
    assert_eq!(WM_DEVICECHANGE, wm::WM_DEVICECHANGE);
    assert_eq!(DBT_DEVICEARRIVAL, wm::DBT_DEVICEARRIVAL);
    assert_eq!(DBT_DEVICEREMOVECOMPLETE, wm::DBT_DEVICEREMOVECOMPLETE);
    assert_eq!(DBT_DEVTYP_DEVICEINTERFACE, wm::DBT_DEVTYP_DEVICEINTERFACE);
}

#[test]
fn message_loop_steps() {
    assert_eq!(pump_step(-1), PumpStep::Failed);
    assert_eq!(pump_step(0), PumpStep::Finished);
    assert_eq!(pump_step(1), PumpStep::Dispatch);
    assert_eq!(pump_step(-2), PumpStep::Dispatch);
    assert_eq!(pump_step(i32::MAX), PumpStep::Dispatch);
}

#[test]
fn window_messages_are_classified() {
    assert_eq!(window_proc(537, 32768), Notification::Arrival);
    assert_eq!(window_proc(537, 32772), Notification::Removal);
    assert_eq!(window_proc(537, 7), Notification::OtherChange);
    assert_eq!(window_proc(537, 0), Notification::OtherChange);
    assert_eq!(window_proc(536, 32768), Notification::NotForUs);
    assert_eq!(window_proc(0, 0), Notification::NotForUs);
}

#[test]
fn only_the_low_half_of_the_parameter_counts() {
    if usize::BITS == 64 {
        let high = (1u64 << 32) as usize;
        assert_eq!(window_proc(537, high + 32768), Notification::Arrival);
        assert_eq!(window_proc(537, high + 32772), Notification::Removal);
    }
}

#[test]
fn raw_path_ends_at_the_first_zero() {
    let name: Vec<u16> = "\\\\?\\USB#X".encode_utf16().chain([0, 65, 0]).collect();
    assert_eq!(nul_position(&name), 9);
    assert_eq!(get_device_id(&name), "\\\\?\\USB#X");
    let open: Vec<u16> = "abc".encode_utf16().collect();
    assert_eq!(nul_position(&open), 3);
    assert_eq!(get_device_id(&open), "abc");
    assert_eq!(get_device_id(&[]), "");
    assert_eq!(get_device_id(&[0]), "");
    assert_eq!(get_device_id(&[0xd800, 0x41]), "\u{fffd}A");
}

#[test]
fn only_device_interfaces_are_published() {
    assert!(matches!(
        handle_device_arrival(5, "p".to_string()),
        Some(UsbConnectionEvent::Connected(p)) if p == "p"
    ));
    assert!(matches!(
        handle_device_removal(5, "p".to_string()),
        Some(UsbConnectionEvent::Disconnected(p)) if p == "p"
    ));
    assert!(handle_device_arrival(4, "p".to_string()).is_none());
    assert!(handle_device_removal(0, "p".to_string()).is_none());
}

#[test]
fn polling_an_empty_mailbox() {
    let mut handle = UsbConnectionCallbacksHandle::new();
    assert!(matches!(
        handle.poll_events(),
        Err(PollEventError::ThreadRecvError(TryRecvError::Empty))
    ));
    handle.disconnected = true;
    assert!(matches!(
        handle.poll_events(),
        Err(PollEventError::ThreadRecvError(TryRecvError::Disconnected))
    ));
}

#[test]
fn polling_hands_out_events_oldest_first() {
    let mut handle = UsbConnectionCallbacksHandle::new();
    handle.events.push(UsbConnectionEvent::Connected("a".to_string()));
    handle.events.push(UsbConnectionEvent::Disconnected("b".to_string()));
    assert!(matches!(handle.poll_events(), Ok(UsbConnectionEvent::Connected(p)) if p == "a"));
    assert!(matches!(handle.poll_events(), Ok(UsbConnectionEvent::Disconnected(p)) if p == "b"));
    assert!(matches!(
        handle.poll_events(),
        Err(PollEventError::ThreadRecvError(TryRecvError::Empty))
    ));
}

#[test]
fn the_end_of_the_source_comes_first() {
    let mut handle = UsbConnectionCallbacksHandle::new();
    handle.events.push(UsbConnectionEvent::Connected("a".to_string()));
    handle.finished = Some(Ok(()));
    assert!(matches!(handle.poll_events(), Err(PollEventError::ThreadFinished)));
    assert_eq!(handle.events.len(), 1);
    assert!(handle.finished.is_none());
    handle.finished = Some(Err(Win32Error::AccessDenied));
    assert!(matches!(
        handle.poll_events(),
        Err(PollEventError::Win32Error(Win32Error::AccessDenied))
    ));
    assert!(matches!(handle.poll_events(), Ok(UsbConnectionEvent::Connected(_))));
}

#[test]
fn steps_of_the_event_loop() {
    match next_step(Ok(UsbConnectionEvent::Connected("\\\\?\\usb#vid_1#5#{guid}".to_string()))) {
        LoopStep::Arrived { device_id, log } => {
            assert_eq!(device_id.as_str(), "USB\\VID_1\\5");
            assert_eq!(log, "USB Device connected: USB\\VID_1\\5");
        },
        other => panic!("{:?}", other),
    }
    match next_step(Ok(UsbConnectionEvent::Disconnected("\\\\?\\usb#vid_1#5#{guid}".to_string()))) {
        LoopStep::Left { device_id, log } => {
            assert_eq!(device_id.as_str(), "USB\\VID_1\\5");
            assert_eq!(log, "USB Device disconnected: USB\\VID_1\\5");
        },
        other => panic!("{:?}", other),
    }
    assert!(matches!(next_step(Err(PollEventError::ThreadFinished)), LoopStep::Stop));
    assert!(matches!(
        next_step(Err(PollEventError::ThreadRecvError(TryRecvError::Empty))),
        LoopStep::Idle
    ));
    assert!(matches!(
        next_step(Err(PollEventError::ThreadRecvError(TryRecvError::Disconnected))),
        LoopStep::Abort(PollEventError::ThreadRecvError(TryRecvError::Disconnected))
    ));
    assert!(matches!(
        next_step(Err(PollEventError::Win32Error(Win32Error::ConfigManagerError(
            ConfigManagerError::Success
        )))),
        LoopStep::Abort(PollEventError::Win32Error(_))
    ));
}
