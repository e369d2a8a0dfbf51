[package]
name = "rnote_core"
version = "0.1.0"
edition = "2021"
publish = false

[dependencies]
anyhow = "1"
gtk4 = { version = "=0.11.5", features = ["v4_12"] }
libadwaita = "=0.9.2"
parry2d-f64 = "=0.31.1"
piet = "=0.8.0"
serde = { version = "1", features = ["derive"] }
tracing = "0.1"
unicode-segmentation = "=1.13.3"
windows-sys = { version = "=0.61.2", features = ["Win32_Foundation", "Win32_Graphics_Dwm", "Win32_Graphics_Gdi", "Win32_UI_Controls", "Win32_UI_Input_KeyboardAndMouse", "Win32_UI_WindowsAndMessaging"] }
