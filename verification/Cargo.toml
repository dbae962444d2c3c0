[package]
name = "clip_glimpse"
version = "0.1.0"
edition = "2021"
publish = false

[dependencies]
lz4_flex = "=0.11.6"
chrono = "=0.4.45"
qrcode = { version = "=0.14.1", default-features = false }
rxing = { version = "=0.9.3", default-features = false, features = ["decoders", "qrcode", "encoding_rs"] }
image = { version = "=0.25.10", default-features = false }
clap = { version = "=4.6.7", features = ["derive"] }
serde = { version = "=1.0.229", features = ["derive"] }
toml = "=0.8.23"
toml_edit = "=0.21.1"
anyhow = "=1.0.104"
egui = "=0.31.1"
eframe = { version = "=0.31.1", default-features = false, features = ["default_fonts", "glow", "x11"] }
windows = { version = "=0.58.0", features = ["Win32_Foundation", "Win32_UI_Input_KeyboardAndMouse", "Win32_Graphics_Gdi", "Win32_UI_WindowsAndMessaging", "Win32_System_DataExchange", "Win32_System_Memory", "Win32_UI_Shell"] }
