[package]
name = "diskclear"
version = "0.1.0"
edition = "2021"
publish = false

[dependencies]
md5 = "0.7"
serde = { version = "1", features = ["derive"] }
serde_json = "1"
windows-sys = { version = "0.59", features = ["Win32_Foundation", "Win32_Storage_FileSystem", "Win32_System_Registry"] }
