[package]
name = "task_manager"
version = "0.1.0"
edition = "2021"
publish = false

[dependencies]
serde = { version = "1", features = ["derive"] }
serde_json = "1"
sysinfo = "0.32"
winapi = { version = "0.3", features = ["psapi", "processthreadsapi", "handleapi", "winnt"] }
windows = { version = "0.58", features = ["Win32_System_Diagnostics_ToolHelp", "Win32_Foundation"] }
