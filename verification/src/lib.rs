//! Parsing and unit normalization for an Android device-bridge's text output.
//!
//! The library structures the device-bridge's two textual reports: the
//! tab-separated device list, and the `key: value` battery dump, whose
//! recognized numeric fields are rewritten into unit-annotated display
//! strings. All I/O (running the bridge tool, prompting) lives outside.

use vstd::prelude::*;

pub mod battery;
pub mod device;
pub mod num;
pub mod text;

pub use battery::format_values;
pub use battery::get_battery_info;
pub use battery::parse_battery_report;

pub use device::connected_devices;
pub use device::get_devices;
pub use device::select_connected;

verus! {

/// Failures of the device-bridge interaction and of report parsing.
#[derive(Debug, PartialEq, Eq)]
pub enum Error {
    /// The bridge tool could not be found or launched.
    NoAdbPresent,
    /// No device is connected.
    NoDevicesFound,
    /// A device-list line did not split into identifier and status token.
    FailedToParseAdbDeviceResponse(String),
    /// A device-list status token is not a recognized state.
    AdbDeviceTypeNotSupported(String),
    /// A recognized battery field held a value that is not a decimal number
    /// of the expected shape; the carried string is the field's key.
    MalformedFieldValue(String),
}

/// Connection state of a listed device.
#[derive(Debug, PartialEq, Eq, Structural, Clone, Copy)]
pub enum DeviceState {
    Connected,
    Unauthorised,
}

/// The state a status token denotes: `"device"` is connected,
/// `"unauthorised"` / `"unauthorized"` is unauthorized, anything else is
/// not a recognized state.
pub open spec fn state_of(s: Seq<char>) -> Option<DeviceState> {
    if s == "device"@ {
        Some(DeviceState::Connected)
    } else if s == "unauthorised"@ || s == "unauthorized"@ {
        Some(DeviceState::Unauthorised)
    } else {
        None
    }
}

impl DeviceState {
    /// Parses a status token; an unrecognized token is an error, never a
    /// default.
    pub fn try_from(value: &str) -> (r: Result<DeviceState, Error>)
        ensures
            match state_of(value@) {
                Some(st) => r == Ok::<DeviceState, Error>(st),
                None => r matches Err(Error::AdbDeviceTypeNotSupported(t)) && t@ == value@,
            },
    {
        if text::str_eq(value, "device") {
            Ok(DeviceState::Connected)
        } else if text::str_eq(value, "unauthorised") || text::str_eq(value, "unauthorized") {
            Ok(DeviceState::Unauthorised)
        } else {
            Err(Error::AdbDeviceTypeNotSupported(value.to_owned()))
        }
    }
}

} // verus!
