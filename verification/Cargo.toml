[package]
name = "comp-gate"
version = "0.1.0"
edition = "2021"
publish = false

[dependencies]
anyhow = "1"
keyring = { version = "3", features = ["windows-native"] }
thiserror = "2"
windows-sys = { version = "0.59", features = ["Win32_Devices_DeviceAndDriverInstallation", "Win32_Devices_Properties", "Win32_Devices_Usb", "Win32_Foundation", "Win32_Graphics_Gdi", "Win32_System_LibraryLoader", "Win32_UI_WindowsAndMessaging"] }
