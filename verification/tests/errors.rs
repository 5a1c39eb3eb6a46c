use comp_gate::error::{
    ConfigManagerError, DeviceInsertionError, DeviceStringPropertyError, PollEventError,
    TryRecvError, Win32Error,
};
use comp_gate::text::decimal_text;
use windows_sys::Win32::Devices::DeviceAndDriverInstallation as cm;
use windows_sys::Win32::Foundation as sys;

#[test]
fn system_codes_are_named() {
    assert_eq!(Win32Error::from_code(sys::ERROR_SUCCESS), Win32Error::Success);
    assert_eq!(Win32Error::from_code(sys::ERROR_FILE_NOT_FOUND), Win32Error::FileNotFound);
    assert_eq!(Win32Error::from_code(sys::ERROR_PATH_NOT_FOUND), Win32Error::PathNotFound);
    assert_eq!(Win32Error::from_code(sys::ERROR_ACCESS_DENIED), Win32Error::AccessDenied);
    assert_eq!(Win32Error::from_code(sys::ERROR_INVALID_HANDLE), Win32Error::InvalidHandle);
    assert_eq!(Win32Error::from_code(sys::ERROR_NOT_ENOUGH_MEMORY), Win32Error::NotEnoughMemory);
    assert_eq!(Win32Error::from_code(sys::ERROR_SHARING_VIOLATION), Win32Error::SharingViolation);
    assert_eq!(Win32Error::from_code(sys::ERROR_INVALID_PARAMETER), Win32Error::InvalidParameter);
    assert_eq!(Win32Error::from_code(sys::ERROR_DISK_FULL), Win32Error::DiskFull);
    assert_eq!(Win32Error::from_code(sys::ERROR_SEM_TIMEOUT), Win32Error::Timeout);
    assert_eq!(
        Win32Error::from_code(sys::ERROR_INSUFFICIENT_BUFFER),
        Win32Error::InsufficientBuffer
    );
    assert_eq!(Win32Error::from_code(sys::ERROR_MORE_DATA), Win32Error::MoreData);
    assert_eq!(Win32Error::from_code(sys::ERROR_OPERATION_ABORTED), Win32Error::OperationAborted);
    assert_eq!(Win32Error::from_code(sys::ERROR_IO_PENDING), Win32Error::IoPending);
    assert_eq!(Win32Error::from_code(sys::ERROR_TIMEOUT), Win32Error::Timeout);
    assert_eq!(Win32Error::from_code(sys::ERROR_NO_MORE_ITEMS), Win32Error::NoMoreItems);
    assert_eq!(Win32Error::from_code(sys::ERROR_INVALID_DATA), Win32Error::InvalidData);
    assert_eq!(Win32Error::from_code(sys::ERROR_NOT_FOUND), Win32Error::NotFound);
    assert_eq!(Win32Error::from_code(sys::ERROR_ALREADY_EXISTS), Win32Error::AlreadyExists);
    assert_eq!(Win32Error::from_code(sys::ERROR_DEV_NOT_EXIST), Win32Error::DeviceNotExist);
}

#[test]
fn other_system_codes_keep_their_number() {
    assert_eq!(Win32Error::from_code(1), Win32Error::UnknownError(1));
    assert_eq!(Win32Error::from_code(4), Win32Error::UnknownError(4));
    assert_eq!(Win32Error::from_code(u32::MAX), Win32Error::UnknownError(u32::MAX));
}

#[test]
fn access_denied_is_recognised() {
    let error: Win32Error = sys::ERROR_ACCESS_DENIED.into();
    assert!(matches!(error, Win32Error::AccessDenied));
}

#[test]
fn errors_wrap_one_another() {
    assert_eq!(Win32Error::from(1460u32), Win32Error::Timeout);
    assert_eq!(ConfigManagerError::from(0u32), ConfigManagerError::Success);
    assert_eq!(ConfigManagerError::from(26u32), ConfigManagerError::UnknownError(26));
    assert_eq!(
        PollEventError::from(Win32Error::Timeout),
        PollEventError::Win32Error(Win32Error::Timeout)
    );
    assert_eq!(
        PollEventError::from(TryRecvError::Empty),
        PollEventError::ThreadRecvError(TryRecvError::Empty)
    );
    assert_eq!(
        DeviceInsertionError::from(Win32Error::NotFound),
        DeviceInsertionError::Win32Error(Win32Error::NotFound)
    );
    assert_eq!(
        DeviceStringPropertyError::from(Win32Error::NotFound),
        DeviceStringPropertyError::Win32Error(Win32Error::NotFound)
    );
}

#[test]
fn config_manager_codes() {
    assert_eq!(comp_gate::error::CR_SUCCESS, cm::CR_SUCCESS);
    assert_eq!(comp_gate::error::CR_BUFFER_SMALL, cm::CR_BUFFER_SMALL);
    assert_eq!(ConfigManagerError::from_code(0), ConfigManagerError::Success);
    assert_eq!(ConfigManagerError::from_code(13), ConfigManagerError::UnknownError(13));
    assert_eq!(
        Win32Error::from(ConfigManagerError::InvalidDeviceInstance),
        Win32Error::ConfigManagerError(ConfigManagerError::InvalidDeviceInstance)
    );
}

#[test]
fn decimal_notation() {
    assert_eq!(decimal_text(0), "0");
    assert_eq!(decimal_text(7), "7");
    assert_eq!(decimal_text(10), "10");
    assert_eq!(decimal_text(1460), "1460");
    assert_eq!(decimal_text(u32::MAX), "4294967295");
}

#[test]
fn system_error_messages() {
    let expected = [
        (Win32Error::Success, "The operation completed successfully"),
        (Win32Error::FileNotFound, "File not found"),
        (Win32Error::PathNotFound, "Path not found"),
        (Win32Error::AccessDenied, "Access denied"),
        (Win32Error::InvalidHandle, "Invalid handle"),
        (Win32Error::NotEnoughMemory, "Not enough memory"),
        (Win32Error::InvalidParameter, "Invalid parameter"),
        (Win32Error::InsufficientBuffer, "Insufficient buffer"),
        (Win32Error::MoreData, "More data available"),
        (Win32Error::IoPending, "I/O pending"),
        (Win32Error::OperationAborted, "Operation aborted"),
        (Win32Error::SharingViolation, "Sharing violation"),
        (Win32Error::DiskFull, "Disk full"),
        (Win32Error::Timeout, "Timeout"),
        (Win32Error::NoMoreItems, "No more items"),
        (Win32Error::InvalidData, "Invalid data"),
        (Win32Error::NotFound, "Not found"),
        (Win32Error::AlreadyExists, "Already exists"),
        (Win32Error::DeviceNotExist, "Device does not exist"),
        (
            Win32Error::ConfigManagerError(ConfigManagerError::UnknownError(3)),
            "Config manager error",
        ),
        (Win32Error::UnknownError(4711), "Unknown error with code: 4711"),
    ];
    for (error, text) in expected {
        assert_eq!(error.message(), text);
    }
}

#[test]
fn other_error_messages() {
    assert_eq!(ConfigManagerError::Success.message(), "Config manager success");
    assert_eq!(
        ConfigManagerError::InvalidDeviceInstance.message(),
        "Config manager instance device instance"
    );
    assert_eq!(ConfigManagerError::UnknownError(26).message(), "Config manager error 26");
    assert_eq!(
        PollEventError::Win32Error(Win32Error::Timeout).message(),
        "Win32 error occurred: Timeout"
    );
    assert_eq!(
        PollEventError::ThreadRecvError(TryRecvError::Empty).message(),
        "Thread receive error: receiving on an empty channel"
    );
    assert_eq!(
        PollEventError::ThreadRecvError(TryRecvError::Disconnected).message(),
        "Thread receive error: receiving on a closed channel"
    );
    assert_eq!(PollEventError::ThreadFinished.message(), "Thread finished");
    assert_eq!(
        DeviceInsertionError::Win32Error(Win32Error::UnknownError(9)).message(),
        "Win32 error occurred: Unknown error with code: 9"
    );
    assert_eq!(
        DeviceInsertionError::DeviceFilteredNotUsb.message(),
        "Device filtered out not a USB device"
    );
    assert_eq!(
        DeviceStringPropertyError::Win32Error(Win32Error::NotFound).message(),
        "Win32 error occurred: Not found"
    );
    assert_eq!(
        DeviceStringPropertyError::PropertyNotString.message(),
        "Property is not a string property"
    );
}

#[test]
fn channel_messages_are_those_of_the_standard_library() {
    assert_eq!(TryRecvError::Empty.message(), std::sync::mpsc::TryRecvError::Empty.to_string());
    assert_eq!(
        TryRecvError::Disconnected.message(),
        std::sync::mpsc::TryRecvError::Disconnected.to_string()
    );
}
