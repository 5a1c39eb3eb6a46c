//! Device properties as the system hands them out, and how a device is
//! made from them.

use crate::device::{forest_view, opt_text_view, Device, DeviceId, DeviceInstance, DeviceTree};
use crate::error::{
    ConfigManagerError, DeviceStringPropertyError, Win32Error, CR_BUFFER_SMALL, CR_SUCCESS,
};
use crate::text::{
    lowercase_of, nul_position, text_from_utf16_lossy, text_until_nul, to_lowercase, to_uppercase,
    until_nul, uppercase_of, utf16_lossy,
};
use vstd::prelude::*;

verus! {

/// Mask that leaves the base type of a property type.
pub const DEVPROP_MASK_TYPE: u32 = 4095;

/// Base type of a property without a value.
pub const DEVPROP_TYPE_EMPTY: u32 = 0;

/// Base type of a property that holds a string.
pub const DEVPROP_TYPE_STRING: u32 = 18;

/// A property of a device.
#[derive(Debug)]
pub enum DeviceProperty {
    /// The property has no value.
    EmptyProperty,
    /// The property holds a string.
    StringProperty { data: String },
    /// A property of another type: its bytes as they came, with the type.
    UnsupportedProperty { raw_data: Vec<u8>, property_type: u32 },
}

/// A property as the contracts see it.
pub enum PropertyView {
    EmptyProperty,
    StringProperty { data: Seq<char> },
    UnsupportedProperty { raw_data: Seq<u8>, property_type: u32 },
}

impl View for DeviceProperty {
    type V = PropertyView;

    open spec fn view(&self) -> PropertyView {
        match self {
            DeviceProperty::EmptyProperty => PropertyView::EmptyProperty,
            DeviceProperty::StringProperty { data } => PropertyView::StringProperty { data: data@ },
            DeviceProperty::UnsupportedProperty { raw_data, property_type } => {
                PropertyView::UnsupportedProperty {
                    raw_data: raw_data@,
                    property_type: *property_type,
                }
            },
        }
    }
}

/// The 16-bit units that bytes hold in pairs, the low byte first; a byte
/// that is left over does not count.
pub open spec fn units_of(bytes: Seq<u8>) -> Seq<u16> {
    Seq::new(
        (bytes.len() / 2) as nat,
        |i: int| (bytes[2 * i] as nat + 256 * bytes[2 * i + 1] as nat) as u16,
    )
}

/// The property that raw bytes and a type make. A string is read from the
/// units in front of the first zero.
pub open spec fn property_of(data: Seq<u8>, property_type: u32) -> PropertyView {
    if (property_type & DEVPROP_MASK_TYPE) == DEVPROP_TYPE_STRING {
        PropertyView::StringProperty { data: utf16_lossy(until_nul(units_of(data))) }
    } else if (property_type & DEVPROP_MASK_TYPE) == DEVPROP_TYPE_EMPTY {
        PropertyView::EmptyProperty
    } else {
        PropertyView::UnsupportedProperty { raw_data: data, property_type: property_type }
    }
}

/// The 16-bit units of `bytes`.
pub fn bytes_to_units(bytes: &[u8]) -> (units: Vec<u16>)
    ensures
        units@ == units_of(bytes@),
{
    let n = bytes.len() / 2;
    let mut units: Vec<u16> = Vec::new();
    let mut i: usize = 0;
    while i < n
        invariant
            i <= n,
            n == bytes.len() / 2,
            units@ == units_of(bytes@).take(i as int),
        decreases n - i,
    {
        let lo = bytes[2 * i] as u16;
        let hi = bytes[2 * i + 1] as u16;
        units.push(lo + 256 * hi);
        proof {
            assert(units_of(bytes@).take(i as int + 1) =~= units_of(bytes@).take(i as int).push(
                units_of(bytes@)[i as int],
            ));
        }
        i += 1;
    }
    proof {
        assert(units_of(bytes@).take(n as int) =~= units_of(bytes@));
    }
    units
}

impl DeviceProperty {
    /// Reads a property from its raw bytes and its type.
    pub fn from_raw(data: &[u8], property_type: u32) -> (p: DeviceProperty)
        ensures
            p@ == property_of(data@, property_type),
    {
        let base = property_type & DEVPROP_MASK_TYPE;
        if base == DEVPROP_TYPE_STRING {
            let units = bytes_to_units(data);
            DeviceProperty::StringProperty { data: text_until_nul(units.as_slice()) }
        } else if base == DEVPROP_TYPE_EMPTY {
            DeviceProperty::EmptyProperty
        } else {
            DeviceProperty::UnsupportedProperty {
                raw_data: vstd::slice::slice_to_vec(data),
                property_type: property_type,
            }
        }
    }
}

/// What a query for a property gave: its bytes and type, or the failure.
pub open spec fn string_of(raw: Result<(Seq<u8>, u32), Win32Error>) -> Result<
    Seq<char>,
    DeviceStringPropertyError,
> {
    match raw {
        Err(e) => Err(DeviceStringPropertyError::Win32Error(e)),
        Ok((data, property_type)) => match property_of(data, property_type) {
            PropertyView::StringProperty { data } => Ok(data),
            _ => Err(DeviceStringPropertyError::PropertyNotString),
        },
    }
}

/// The view of the answer to a property query.
pub open spec fn raw_view(raw: Result<(Vec<u8>, u32), Win32Error>) -> Result<
    (Seq<u8>, u32),
    Win32Error,
> {
    match raw {
        Ok((data, property_type)) => Ok((data@, property_type)),
        Err(e) => Err(e),
    }
}

/// The view of a text or an error.
pub open spec fn text_result_view<E>(r: Result<String, E>) -> Result<Seq<char>, E> {
    match r {
        Ok(s) => Ok(s@),
        Err(e) => Err(e),
    }
}

/// Reads the answer to a property query as a string: the failure of the
/// query is handed on, and a property of another type is refused.
pub fn retrieve_string_property(raw: &Result<(Vec<u8>, u32), Win32Error>) -> (r: Result<
    String,
    DeviceStringPropertyError,
>)
    ensures
        text_result_view(r) == string_of(raw_view(*raw)),
{
    match raw {
        Err(e) => Err(DeviceStringPropertyError::Win32Error(*e)),
        Ok((data, property_type)) => {
            match DeviceProperty::from_raw(data.as_slice(), *property_type) {
                DeviceProperty::StringProperty { data } => Ok(data),
                _ => Err(DeviceStringPropertyError::PropertyNotString),
            }
        },
    }
}

/// Outcome of a configuration-manager call that returns nothing else: an
/// error for every result code but success.
pub fn check_config_result(code: u32) -> (r: Result<(), Win32Error>)
    ensures
        code == CR_SUCCESS ==> r is Ok,
        code != CR_SUCCESS ==> r == Err::<(), Win32Error>(
            Win32Error::ConfigManagerError(ConfigManagerError::of_code(code)),
        ),
{
    if code != CR_SUCCESS {
        return Err(Win32Error::from(ConfigManagerError::from_code(code)));
    }
    Ok(())
}

/// What a query answers before it asks the system anything: a handle that
/// names no live device is refused as an invalid parameter.
pub fn check_device_instance(is_valid: bool) -> (r: Result<(), Win32Error>)
    ensures
        is_valid ==> r is Ok,
        !is_valid ==> r == Err::<(), Win32Error>(Win32Error::InvalidParameter),
{
    if !is_valid {
        return Err(Win32Error::InvalidParameter);
    }
    Ok(())
}

/// Outcome of the call that asks how large a property is: the call may
/// say that the buffer is too small, which is what it was asked for;
/// every other result code but success is an error.
pub fn check_size_probe(code: u32) -> (r: Result<(), Win32Error>)
    ensures
        code == CR_SUCCESS || code == CR_BUFFER_SMALL ==> r is Ok,
        code != CR_SUCCESS && code != CR_BUFFER_SMALL ==> r == Err::<(), Win32Error>(
            Win32Error::ConfigManagerError(ConfigManagerError::of_code(code)),
        ),
{
    if code == CR_BUFFER_SMALL {
        return Ok(());
    }
    check_config_result(code)
}

impl DeviceInstance {
    /// The handle `raw_devinst`, where the system says that it names a
    /// live device.
    pub fn try_from(raw_devinst: u32, is_valid: bool) -> (r: Result<
        DeviceInstance,
        ConfigManagerError,
    >)
        ensures
            is_valid ==> r == Ok::<DeviceInstance, ConfigManagerError>(DeviceInstance(raw_devinst)),
            !is_valid ==> r == Err::<DeviceInstance, ConfigManagerError>(
                ConfigManagerError::InvalidDeviceInstance,
            ),
    {
        if !is_valid {
            return Err(ConfigManagerError::InvalidDeviceInstance);
        }
        Ok(DeviceInstance(raw_devinst))
    }

    /// The handle that a lookup by identity gave, where the lookup
    /// succeeded.
    pub fn located(code: u32, devinst: u32) -> (r: Result<DeviceInstance, ConfigManagerError>)
        ensures
            code == CR_SUCCESS ==> r == Ok::<DeviceInstance, ConfigManagerError>(
                DeviceInstance(devinst),
            ),
            code != CR_SUCCESS ==> r == Err::<DeviceInstance, ConfigManagerError>(
                ConfigManagerError::of_code(code),
            ),
    {
        if code != CR_SUCCESS {
            return Err(ConfigManagerError::from_code(code));
        }
        Ok(DeviceInstance(devinst))
    }
}

/// The units of an identity that the system wrote into `buffer`: where
/// it reported a size, one unit less than that, as far as the buffer
/// reaches; where it reported none, the units in front of the first zero.
pub open spec fn id_units(buffer: Seq<u16>, size: u32) -> Seq<u16> {
    if size == 0 {
        until_nul(buffer)
    } else if size - 1 <= buffer.len() {
        buffer.take(size - 1)
    } else {
        buffer
    }
}

/// The identity of a device, read from the buffer that the system filled:
/// its text in upper case.
pub fn retrieve_device_id(buffer: &[u16], size: u32) -> (id: String)
    ensures
        id@ == uppercase_of(utf16_lossy(id_units(buffer@, size))),
{
    let len: usize = if size == 0 {
        nul_position(buffer)
    } else if (size - 1) as usize <= buffer.len() {
        (size - 1) as usize
    } else {
        buffer.len()
    };
    proof {
        assert(buffer@.take(buffer@.len() as int) =~= buffer@);
    }
    let text = text_from_utf16_lossy(vstd::slice::slice_subrange(buffer, 0, len));
    to_uppercase(text.as_str())
}

/// What the system answered when it was asked about a device.
#[derive(Debug)]
pub struct DeviceProperties {
    /// The identity, already in upper case; without it no device is made.
    pub device_id: Result<String, Win32Error>,
    /// The identity of the parent.
    pub parent: Result<String, DeviceStringPropertyError>,
    /// The name of the service.
    pub service: Result<String, DeviceStringPropertyError>,
    /// The setup class.
    pub class: Result<String, DeviceStringPropertyError>,
    /// The type.
    pub device_type: Result<String, DeviceStringPropertyError>,
    /// The description.
    pub description: Result<String, DeviceStringPropertyError>,
    /// The friendly name.
    pub friendly_name: Result<String, DeviceStringPropertyError>,
}

/// A property's text where the query gave one.
pub open spec fn text_or_none(r: Result<String, DeviceStringPropertyError>) -> Option<Seq<char>> {
    match r {
        Ok(s) => Some(s@),
        Err(_) => None,
    }
}

/// The device that the answers of the system describe: a root without
/// children. The parent's identity is put in upper case, the service name
/// in lower case; a property that could not be read is left out.
pub open spec fn device_of(devinst: DeviceInstance, answers: DeviceProperties) -> DeviceTree {
    DeviceTree {
        devinst: devinst.0,
        id: answers.device_id->Ok_0@,
        parent: match answers.parent {
            Ok(p) => Some(uppercase_of(p@)),
            Err(_) => None,
        },
        level: 0,
        children: Seq::empty(),
        service: match answers.service {
            Ok(s) => Some(lowercase_of(s@)),
            Err(_) => None,
        },
        class: text_or_none(answers.class),
        friendly_name: text_or_none(answers.friendly_name),
        device_type: text_or_none(answers.device_type),
        description: text_or_none(answers.description),
    }
}

/// Hands a property's text on where there is one.
fn keep_text(r: Result<String, DeviceStringPropertyError>) -> (o: Option<String>)
    ensures
        opt_text_view(o) == text_or_none(r),
{
    match r {
        Ok(s) => Some(s),
        Err(_) => None,
    }
}

impl Device {
    /// Makes a device from what the system answered about it. Only the
    /// identity is needed: where it could not be read, its error is the
    /// result. Every other property may be missing.
    pub fn try_from(devinst: DeviceInstance, answers: DeviceProperties) -> (r: Result<
        Device,
        Win32Error,
    >)
        ensures
            match answers.device_id {
                Ok(_) => r is Ok && r->Ok_0@ == device_of(devinst, answers),
                Err(e) => r is Err && r->Err_0 == e,
            },
    {
        let DeviceProperties {
            device_id,
            parent,
            service,
            class,
            device_type,
            description,
            friendly_name,
        } = answers;
        let device_id = match device_id {
            Ok(id) => DeviceId(id),
            Err(e) => {
                return Err(e);
            },
        };
        let parent_id = match parent {
            Ok(p) => Some(DeviceId(to_uppercase(p.as_str()))),
            Err(_) => None,
        };
        let device_service = match service {
            Ok(s) => Some(to_lowercase(s.as_str())),
            Err(_) => None,
        };
        let device = Device {
            devinst: devinst,
            device_id: device_id,
            parent_id: parent_id,
            tree_level: 0,
            devices: Vec::new(),
            device_service: device_service,
            device_class: keep_text(class),
            device_friendly_name: keep_text(friendly_name),
            device_type: keep_text(device_type),
            device_description: keep_text(description),
        };
        proof {
            assert(forest_view(device.devices@) =~= Seq::<DeviceTree>::empty());
        }
        Ok(device)
    }
}

} // verus!
