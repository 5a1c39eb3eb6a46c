//! Error types shared by the device, policy and protocol modules.
//!
//! Operating-system failures arrive as raw result codes. This module maps
//! them onto closed sets of named kinds and gives every kind its message.

use crate::device::Device;
use crate::text::{decimal, decimal_text};
use vstd::prelude::*;
use vstd::std_specs::convert::FromSpecImpl;

verus! {

/// Result code with which a configuration-manager call reports success.
pub const CR_SUCCESS: u32 = 0;

/// Result code of a configuration-manager size probe whose buffer was too small.
pub const CR_BUFFER_SMALL: u32 = 26;

pub const ERROR_SUCCESS: u32 = 0;

pub const ERROR_FILE_NOT_FOUND: u32 = 2;

pub const ERROR_PATH_NOT_FOUND: u32 = 3;

pub const ERROR_ACCESS_DENIED: u32 = 5;

pub const ERROR_INVALID_HANDLE: u32 = 6;

pub const ERROR_NOT_ENOUGH_MEMORY: u32 = 8;

pub const ERROR_INVALID_DATA: u32 = 13;

pub const ERROR_SHARING_VIOLATION: u32 = 32;

pub const ERROR_DEV_NOT_EXIST: u32 = 55;

pub const ERROR_INVALID_PARAMETER: u32 = 87;

pub const ERROR_DISK_FULL: u32 = 112;

pub const ERROR_SEM_TIMEOUT: u32 = 121;

pub const ERROR_INSUFFICIENT_BUFFER: u32 = 122;

pub const ERROR_ALREADY_EXISTS: u32 = 183;

pub const ERROR_MORE_DATA: u32 = 234;

pub const ERROR_NO_MORE_ITEMS: u32 = 259;

pub const ERROR_OPERATION_ABORTED: u32 = 995;

pub const ERROR_IO_PENDING: u32 = 997;

pub const ERROR_NOT_FOUND: u32 = 1168;

pub const ERROR_TIMEOUT: u32 = 1460;

/// Failure reported by the operating system's configuration manager.
#[derive(Debug, Clone, Copy, PartialEq, Eq, Structural)]
pub enum ConfigManagerError {
    /// The call succeeded.
    Success,
    /// The device instance handle does not name a live device.
    InvalidDeviceInstance,
    /// Any other result code.
    UnknownError(u32),
}

impl ConfigManagerError {
    /// The error that stands for a raw configuration-manager result code.
    pub open spec fn of_code(code: u32) -> ConfigManagerError {
        if code == CR_SUCCESS {
            ConfigManagerError::Success
        } else {
            ConfigManagerError::UnknownError(code)
        }
    }

    /// Classifies a raw configuration-manager result code.
    pub fn from_code(code: u32) -> (e: ConfigManagerError)
        ensures
            e == Self::of_code(code),
    {
        if code == CR_SUCCESS {
            ConfigManagerError::Success
        } else {
            ConfigManagerError::UnknownError(code)
        }
    }
}

/// A system error code, mapped onto a closed set of named kinds.
#[derive(Debug, Clone, Copy, PartialEq, Eq, Structural)]
pub enum Win32Error {
    Success,
    FileNotFound,
    PathNotFound,
    AccessDenied,
    InvalidHandle,
    NotEnoughMemory,
    InvalidParameter,
    InsufficientBuffer,
    MoreData,
    IoPending,
    OperationAborted,
    SharingViolation,
    DiskFull,
    /// A semaphore timeout or a wait timeout.
    Timeout,
    NoMoreItems,
    InvalidData,
    NotFound,
    AlreadyExists,
    DeviceNotExist,
    /// A failure of the configuration manager.
    ConfigManagerError(ConfigManagerError),
    /// A code outside the named kinds.
    UnknownError(u32),
}

impl Win32Error {
    /// The kind that stands for a raw system error code.
    pub open spec fn of_code(code: u32) -> Win32Error {
        if code == ERROR_SUCCESS {
            Win32Error::Success
        } else if code == ERROR_FILE_NOT_FOUND {
            Win32Error::FileNotFound
        } else if code == ERROR_PATH_NOT_FOUND {
            Win32Error::PathNotFound
        } else if code == ERROR_ACCESS_DENIED {
            Win32Error::AccessDenied
        } else if code == ERROR_INVALID_HANDLE {
            Win32Error::InvalidHandle
        } else if code == ERROR_NOT_ENOUGH_MEMORY {
            Win32Error::NotEnoughMemory
        } else if code == ERROR_SHARING_VIOLATION {
            Win32Error::SharingViolation
        } else if code == ERROR_INVALID_PARAMETER {
            Win32Error::InvalidParameter
        } else if code == ERROR_DISK_FULL {
            Win32Error::DiskFull
        } else if code == ERROR_SEM_TIMEOUT || code == ERROR_TIMEOUT {
            Win32Error::Timeout
        } else if code == ERROR_INSUFFICIENT_BUFFER {
            Win32Error::InsufficientBuffer
        } else if code == ERROR_MORE_DATA {
            Win32Error::MoreData
        } else if code == ERROR_OPERATION_ABORTED {
            Win32Error::OperationAborted
        } else if code == ERROR_IO_PENDING {
            Win32Error::IoPending
        } else if code == ERROR_NO_MORE_ITEMS {
            Win32Error::NoMoreItems
        } else if code == ERROR_INVALID_DATA {
            Win32Error::InvalidData
        } else if code == ERROR_NOT_FOUND {
            Win32Error::NotFound
        } else if code == ERROR_ALREADY_EXISTS {
            Win32Error::AlreadyExists
        } else if code == ERROR_DEV_NOT_EXIST {
            Win32Error::DeviceNotExist
        } else {
            Win32Error::UnknownError(code)
        }
    }

    /// Classifies a raw system error code.
    pub fn from_code(code: u32) -> (e: Win32Error)
        ensures
            e == Self::of_code(code),
    {
        match code {
            ERROR_SUCCESS => Win32Error::Success,
            ERROR_FILE_NOT_FOUND => Win32Error::FileNotFound,
            ERROR_PATH_NOT_FOUND => Win32Error::PathNotFound,
            ERROR_ACCESS_DENIED => Win32Error::AccessDenied,
            ERROR_INVALID_HANDLE => Win32Error::InvalidHandle,
            ERROR_NOT_ENOUGH_MEMORY => Win32Error::NotEnoughMemory,
            ERROR_SHARING_VIOLATION => Win32Error::SharingViolation,
            ERROR_INVALID_PARAMETER => Win32Error::InvalidParameter,
            ERROR_DISK_FULL => Win32Error::DiskFull,
            ERROR_SEM_TIMEOUT => Win32Error::Timeout,
            ERROR_INSUFFICIENT_BUFFER => Win32Error::InsufficientBuffer,
            ERROR_MORE_DATA => Win32Error::MoreData,
            ERROR_OPERATION_ABORTED => Win32Error::OperationAborted,
            ERROR_IO_PENDING => Win32Error::IoPending,
            ERROR_TIMEOUT => Win32Error::Timeout,
            ERROR_NO_MORE_ITEMS => Win32Error::NoMoreItems,
            ERROR_INVALID_DATA => Win32Error::InvalidData,
            ERROR_NOT_FOUND => Win32Error::NotFound,
            ERROR_ALREADY_EXISTS => Win32Error::AlreadyExists,
            ERROR_DEV_NOT_EXIST => Win32Error::DeviceNotExist,
            _ => Win32Error::UnknownError(code),
        }
    }
}

/// Why a non-blocking receive on a channel gave no value.
#[derive(Debug, Clone, Copy, PartialEq, Eq, Structural)]
pub enum TryRecvError {
    /// Nothing is waiting; the sender is still there.
    Empty,
    /// The sender is gone and nothing is waiting.
    Disconnected,
}

/// Outcome of polling the hotplug source that is not an event.
#[derive(Debug, Clone, Copy, PartialEq, Eq, Structural)]
pub enum PollEventError {
    /// The source stopped because a system call failed.
    Win32Error(Win32Error),
    /// The event channel gave no value.
    ThreadRecvError(TryRecvError),
    /// The source ran to its end.
    ThreadFinished,
}

/// Why a device was not inserted into the topology.
#[derive(Debug, Clone, Copy, PartialEq, Eq, Structural)]
pub enum DeviceInsertionError {
    /// A system call failed while the device was inspected.
    Win32Error(Win32Error),
    /// The device is a hub and is kept out of the topology.
    DeviceFilteredNotUsb,
}

/// Why a device property could not be read as a string.
#[derive(Debug, Clone, Copy, PartialEq, Eq, Structural)]
pub enum DeviceStringPropertyError {
    /// A system call failed while the property was queried.
    Win32Error(Win32Error),
    /// The property exists but does not hold a string.
    PropertyNotString,
}

impl ConfigManagerError {
    /// What the error says.
    pub open spec fn message_text(self) -> Seq<char> {
        match self {
            ConfigManagerError::Success => "Config manager success"@,
            ConfigManagerError::InvalidDeviceInstance => "Config manager instance device instance"@,
            ConfigManagerError::UnknownError(code) => "Config manager error "@ + decimal(
                code as nat,
            ),
        }
    }

    /// What the error says.
    pub fn message(&self) -> (s: String)
        ensures
            s@ == self.message_text(),
    {
        match self {
            ConfigManagerError::Success => String::from_str("Config manager success"),
            ConfigManagerError::InvalidDeviceInstance => String::from_str(
                "Config manager instance device instance",
            ),
            ConfigManagerError::UnknownError(code) => {
                let mut s = String::from_str("Config manager error ");
                s.append(decimal_text(*code).as_str());
                s
            },
        }
    }
}

impl Win32Error {
    /// What the error says.
    pub open spec fn message_text(self) -> Seq<char> {
        match self {
            Win32Error::Success => "The operation completed successfully"@,
            Win32Error::FileNotFound => "File not found"@,
            Win32Error::PathNotFound => "Path not found"@,
            Win32Error::AccessDenied => "Access denied"@,
            Win32Error::InvalidHandle => "Invalid handle"@,
            Win32Error::NotEnoughMemory => "Not enough memory"@,
            Win32Error::InvalidParameter => "Invalid parameter"@,
            Win32Error::InsufficientBuffer => "Insufficient buffer"@,
            Win32Error::MoreData => "More data available"@,
            Win32Error::IoPending => "I/O pending"@,
            Win32Error::OperationAborted => "Operation aborted"@,
            Win32Error::SharingViolation => "Sharing violation"@,
            Win32Error::DiskFull => "Disk full"@,
            Win32Error::Timeout => "Timeout"@,
            Win32Error::NoMoreItems => "No more items"@,
            Win32Error::InvalidData => "Invalid data"@,
            Win32Error::NotFound => "Not found"@,
            Win32Error::AlreadyExists => "Already exists"@,
            Win32Error::DeviceNotExist => "Device does not exist"@,
            Win32Error::ConfigManagerError(_) => "Config manager error"@,
            Win32Error::UnknownError(code) => "Unknown error with code: "@ + decimal(code as nat),
        }
    }

    /// What the error says.
    pub fn message(&self) -> (s: String)
        ensures
            s@ == self.message_text(),
    {
        match self {
            Win32Error::Success => String::from_str("The operation completed successfully"),
            Win32Error::FileNotFound => String::from_str("File not found"),
            Win32Error::PathNotFound => String::from_str("Path not found"),
            Win32Error::AccessDenied => String::from_str("Access denied"),
            Win32Error::InvalidHandle => String::from_str("Invalid handle"),
            Win32Error::NotEnoughMemory => String::from_str("Not enough memory"),
            Win32Error::InvalidParameter => String::from_str("Invalid parameter"),
            Win32Error::InsufficientBuffer => String::from_str("Insufficient buffer"),
            Win32Error::MoreData => String::from_str("More data available"),
            Win32Error::IoPending => String::from_str("I/O pending"),
            Win32Error::OperationAborted => String::from_str("Operation aborted"),
            Win32Error::SharingViolation => String::from_str("Sharing violation"),
            Win32Error::DiskFull => String::from_str("Disk full"),
            Win32Error::Timeout => String::from_str("Timeout"),
            Win32Error::NoMoreItems => String::from_str("No more items"),
            Win32Error::InvalidData => String::from_str("Invalid data"),
            Win32Error::NotFound => String::from_str("Not found"),
            Win32Error::AlreadyExists => String::from_str("Already exists"),
            Win32Error::DeviceNotExist => String::from_str("Device does not exist"),
            Win32Error::ConfigManagerError(_) => String::from_str("Config manager error"),
            Win32Error::UnknownError(code) => {
                let mut s = String::from_str("Unknown error with code: ");
                s.append(decimal_text(*code).as_str());
                s
            },
        }
    }
}

impl TryRecvError {
    /// What the error says.
    pub open spec fn message_text(self) -> Seq<char> {
        match self {
            TryRecvError::Empty => "receiving on an empty channel"@,
            TryRecvError::Disconnected => "receiving on a closed channel"@,
        }
    }

    /// What the error says.
    pub fn message(&self) -> (s: String)
        ensures
            s@ == self.message_text(),
    {
        match self {
            TryRecvError::Empty => String::from_str("receiving on an empty channel"),
            TryRecvError::Disconnected => String::from_str(
                "receiving on a closed channel",
            ),
        }
    }
}

impl PollEventError {
    /// What the error says.
    pub open spec fn message_text(self) -> Seq<char> {
        match self {
            PollEventError::Win32Error(e) => "Win32 error occurred: "@ + e.message_text(),
            PollEventError::ThreadRecvError(e) => "Thread receive error: "@ + e.message_text(),
            PollEventError::ThreadFinished => "Thread finished"@,
        }
    }

    /// What the error says.
    pub fn message(&self) -> (s: String)
        ensures
            s@ == self.message_text(),
    {
        match self {
            PollEventError::Win32Error(e) => {
                let mut s = String::from_str("Win32 error occurred: ");
                s.append(e.message().as_str());
                s
            },
            PollEventError::ThreadRecvError(e) => {
                let mut s = String::from_str("Thread receive error: ");
                s.append(e.message().as_str());
                s
            },
            PollEventError::ThreadFinished => String::from_str("Thread finished"),
        }
    }
}

impl DeviceInsertionError {
    /// What the error says.
    pub open spec fn message_text(self) -> Seq<char> {
        match self {
            DeviceInsertionError::Win32Error(e) => "Win32 error occurred: "@ + e.message_text(),
            DeviceInsertionError::DeviceFilteredNotUsb => "Device filtered out not a USB device"@,
        }
    }

    /// What the error says.
    pub fn message(&self) -> (s: String)
        ensures
            s@ == self.message_text(),
    {
        match self {
            DeviceInsertionError::Win32Error(e) => {
                let mut s = String::from_str("Win32 error occurred: ");
                s.append(e.message().as_str());
                s
            },
            DeviceInsertionError::DeviceFilteredNotUsb => String::from_str(
                "Device filtered out not a USB device",
            ),
        }
    }
}

impl DeviceStringPropertyError {
    /// What the error says.
    pub open spec fn message_text(self) -> Seq<char> {
        match self {
            DeviceStringPropertyError::Win32Error(e) => "Win32 error occurred: "@
                + e.message_text(),
            DeviceStringPropertyError::PropertyNotString => "Property is not a string property"@,
        }
    }

    /// What the error says.
    pub fn message(&self) -> (s: String)
        ensures
            s@ == self.message_text(),
    {
        match self {
            DeviceStringPropertyError::Win32Error(e) => {
                let mut s = String::from_str("Win32 error occurred: ");
                s.append(e.message().as_str());
                s
            },
            DeviceStringPropertyError::PropertyNotString => String::from_str(
                "Property is not a string property",
            ),
        }
    }
}

impl From<u32> for ConfigManagerError {
    fn from(value: u32) -> (r: ConfigManagerError) {
        ConfigManagerError::from_code(value)
    }
}

impl FromSpecImpl<u32> for ConfigManagerError {
    open spec fn obeys_from_spec() -> bool {
        true
    }

    open spec fn from_spec(value: u32) -> ConfigManagerError {
        ConfigManagerError::of_code(value)
    }
}

impl From<u32> for Win32Error {
    fn from(value: u32) -> (r: Win32Error) {
        Win32Error::from_code(value)
    }
}

impl FromSpecImpl<u32> for Win32Error {
    open spec fn obeys_from_spec() -> bool {
        true
    }

    open spec fn from_spec(value: u32) -> Win32Error {
        Win32Error::of_code(value)
    }
}

impl From<ConfigManagerError> for Win32Error {
    fn from(value: ConfigManagerError) -> (r: Win32Error) {
        Win32Error::ConfigManagerError(value)
    }
}

impl FromSpecImpl<ConfigManagerError> for Win32Error {
    open spec fn obeys_from_spec() -> bool {
        true
    }

    open spec fn from_spec(value: ConfigManagerError) -> Win32Error {
        Win32Error::ConfigManagerError(value)
    }
}

impl From<Win32Error> for PollEventError {
    fn from(value: Win32Error) -> (r: PollEventError) {
        PollEventError::Win32Error(value)
    }
}

impl FromSpecImpl<Win32Error> for PollEventError {
    open spec fn obeys_from_spec() -> bool {
        true
    }

    open spec fn from_spec(value: Win32Error) -> PollEventError {
        PollEventError::Win32Error(value)
    }
}

impl From<TryRecvError> for PollEventError {
    fn from(value: TryRecvError) -> (r: PollEventError) {
        PollEventError::ThreadRecvError(value)
    }
}

impl FromSpecImpl<TryRecvError> for PollEventError {
    open spec fn obeys_from_spec() -> bool {
        true
    }

    open spec fn from_spec(value: TryRecvError) -> PollEventError {
        PollEventError::ThreadRecvError(value)
    }
}

impl From<Win32Error> for DeviceInsertionError {
    fn from(value: Win32Error) -> (r: DeviceInsertionError) {
        DeviceInsertionError::Win32Error(value)
    }
}

impl FromSpecImpl<Win32Error> for DeviceInsertionError {
    open spec fn obeys_from_spec() -> bool {
        true
    }

    open spec fn from_spec(value: Win32Error) -> DeviceInsertionError {
        DeviceInsertionError::Win32Error(value)
    }
}

impl From<Win32Error> for DeviceStringPropertyError {
    fn from(value: Win32Error) -> (r: DeviceStringPropertyError) {
        DeviceStringPropertyError::Win32Error(value)
    }
}

impl FromSpecImpl<Win32Error> for DeviceStringPropertyError {
    open spec fn obeys_from_spec() -> bool {
        true
    }

    open spec fn from_spec(value: Win32Error) -> DeviceStringPropertyError {
        DeviceStringPropertyError::Win32Error(value)
    }
}

} // verus!
