[package]
name = "float-clock"
version = "0.1.0"
edition = "2021"
publish = false

[dependencies]
chrono = { version = "=0.4.45", default-features = false, features = ["clock", "std"] }
png = "=0.18.1"
serde = { version = "=1.0.229", features = ["derive"] }
toml = "=1.1.8"
eframe = { version = "=0.37.0", default-features = false, features = ["glow", "x11", "default_fonts"] }
egui_glow = "=0.37.0"
glow = "=0.17.0"
ab_glyph = "=0.2.32"
fontdb = "=0.24.0"
objc2 = "=0.6.5"
objc2-app-kit = "=0.3.2"
tray-icon = "*"
windows-sys = { version = "=0.61.2", features = ["Win32_Foundation", "Win32_Security", "Win32_System_Diagnostics_ToolHelp", "Win32_System_RemoteDesktop", "Win32_System_SystemServices", "Win32_System_Threading", "Win32_UI_Shell", "Win32_UI_WindowsAndMessaging"] }
