[package]
name = "tmm"
version = "0.1.0"
edition = "2021"
publish = false

[dependencies]
anyhow = "1"
bincode = "2"
byteorder = "1"
directories = "5"
egui = "0.30"
egui_extras = "0.30"
indexmap = "2"
sysinfo = { version = "0.31", default-features = false, features = ["system"] }
