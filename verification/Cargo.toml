[package]
name = "rustrig"
version = "0.1.0"
edition = "2021"
publish = false

[dependencies]
rtrb = "*"
nam-rs = "*"
fft-convolver = "*"
hound = "*"
thiserror = "*"
anyhow = "*"
eframe = { version = "*", default-features = false, features = ["glow", "default_fonts", "x11"] }
rfd = { version = "*", default-features = false, features = ["xdg-portal", "async-std"] }
windows = { version = "*", features = ["Win32_Foundation", "Win32_Media_Audio", "Win32_System_Com", "Win32_System_Com_StructuredStorage", "Win32_System_Threading", "Win32_Devices_FunctionDiscovery", "Win32_UI_Shell_PropertiesSystem", "Win32_System_Variant", "Win32_Security"] }
asio-sys = "*"
