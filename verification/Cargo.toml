[package]
name = "binkybox"
version = "0.1.0"
edition = "2021"
publish = false

[dependencies]
winapi = { version = "*", features = ["winuser", "windef", "minwindef", "ntdef"] }
windows = { version = "*", features = ["Win32_Foundation", "Win32_System_Console", "Win32_System_Threading", "Win32_UI_WindowsAndMessaging"] }
tokio = { version = "*", features = ["rt-multi-thread", "macros"] }
