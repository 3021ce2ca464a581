[package]
name = "port_ops"
version = "0.1.0"
edition = "2021"
publish = false

[dependencies]
libc = "0.2"
napi = "*"
napi-derive = "*"
windows-sys = { version = "*", features = ["Win32_Foundation", "Win32_NetworkManagement_IpHelper", "Win32_Networking_WinSock", "Win32_System_Diagnostics_ToolHelp", "Win32_System_Threading"] }
