[package]
name = "time_tracker"
version = "0.1.0"
edition = "2021"
publish = false

[dependencies]
chrono = "0.4"
rusqlite = { version = "*", features = ["bundled"] }
serde = { version = "1", features = ["derive"] }
tokio = { version = "1", features = ["time", "rt"] }
windows-sys = { version = "*", features = ["Win32_UI_Input_KeyboardAndMouse", "Win32_System_SystemInformation"] }
