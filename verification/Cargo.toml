[package]
name = "fossilsense"
version = "0.1.0"
edition = "2021"
publish = false

[dependencies]
anyhow = "=1.0.104"
blake3 = "=1.8.7"
ignore = "=0.4.34"
serde = { version = "=1.0.229", features = ["derive"] }
tower-lsp = "=0.20.0"
windows-sys = { version = "*", features = ["Win32_Foundation", "Win32_Storage_FileSystem"] }

[dev-dependencies]
tempfile = "=3.27.0"
