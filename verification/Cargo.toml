[package]
name = "srcds_console"
version = "0.2.0"
edition = "2021"
publish = false

[dependencies]
windows-sys = { version = "0.59", features = ["Win32_Foundation", "Win32_System_Console", "Win32_System_Environment", "Win32_System_LibraryLoader", "Win32_System_Memory"] }
