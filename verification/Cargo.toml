[package]
name = "profcast"
version = "0.1.0"
edition = "2021"
publish = false

[dependencies]
anyhow = "1"
clap = { version = "4", features = ["derive"] }
flate2 = "1"
libc = "0.2"
object = { version = "0.36", default-features = false, features = ["read", "std"] }
prost = { version = "0.13", default-features = false, features = ["std"] }
serde = "1"
serde_json = { version = "1", features = ["preserve_order"] }
shlex = "1"
tracing = "0.1"
tracing-subscriber = { version = "0.3", features = ["env-filter"] }
windows-sys = { version = "0.59", features = ["Win32_Foundation", "Win32_Security", "Win32_System_Diagnostics_Debug", "Win32_System_Diagnostics_ToolHelp", "Win32_System_Kernel", "Win32_System_Threading", "Win32_System_WindowsProgramming"] }
