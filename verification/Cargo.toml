[package]
name = "ssd_llm"
version = "0.1.0"
edition = "2021"
publish = false

[dependencies]
anyhow = "1"
blake3 = "1"
cudarc = { version = "0.12", features = ["cuda-12040"] }
half = "2"
ignore = "0.4"
libc = "0.2"
memmap2 = "0.9"
rayon = "1"
reqwest = { version = "0.12", default-features = false, features = ["blocking", "json"] }
serde = { version = "1", features = ["derive"] }
serde_json = "1"
tracing = "0.1"
windows-sys = { version = "0.59", features = ["Win32_Foundation", "Win32_System_Memory", "Win32_System_Threading"] }
