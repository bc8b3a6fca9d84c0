[package]
name = "jmap_dumper"
version = "0.1.0"
edition = "2021"
publish = false

[dependencies]
anyhow = "1"
bytemuck = "=1.25.2"
libc = "0.2"
memmap2 = "*"
minidump = "=0.27.0"
ordermap = "=1.2.2"
read-process-memory = "0.1"
serde = { version = "1", features = ["derive"] }
time = "*"
windows = { version = "0.58", features = ["Win32_Foundation", "Win32_System_Diagnostics_Debug"] }
