//! Access control for USB and HID hardware: the device topology, the
//! authorised-device list, the request protocol and the hotplug event model.

pub mod building;
pub mod device;
pub mod discovery;
pub mod error;
pub mod forest;
pub mod hex;
pub mod hotplug;
pub mod hubs;
pub mod ioapi;
pub mod property;
pub mod render;
pub mod text;
pub mod topology;
pub mod whitelist;
