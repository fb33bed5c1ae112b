[package]
name = "egui_clap_host"
version = "0.1.0"
edition = "2021"
publish = false

[dependencies]
base64 = "=0.22.1"
clack-extensions = { version = "=0.2.0", features = ["clack-host", "gui", "log", "params", "timer"] }
clack-host = "=0.2.0"
crossbeam-channel = "=0.5.17"
eframe = { version = "=0.31.1", default-features = false, features = ["default_fonts", "glow", "x11"] }
midly = "=0.5.3"
ogg = "=0.9.2"
opus-rs = "=0.1.40"
ron = "=0.8.1"
rtrb = "=0.3.6"
serde = { version = "=1.0.229", features = ["derive"] }
vst3-host = { version = "=0.10.0", default-features = false }
windows-sys = { version = "=0.59.0", features = ["Win32_Foundation", "Win32_Graphics_Gdi", "Win32_System_DataExchange", "Win32_System_LibraryLoader", "Win32_System_Ole", "Win32_UI_Input_KeyboardAndMouse", "Win32_UI_WindowsAndMessaging"] }
