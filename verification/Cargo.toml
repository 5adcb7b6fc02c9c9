[package]
name = "memtrace_ui"
version = "0.1.0"
edition = "2021"
publish = false

[dependencies]
anyhow = "1"
bytesize = "2"
clap = { version = "4", features = ["derive"] }
egui = "0.31"
egui_extras = { version = "0.31", default-features = false }
egui_ltreeview = "0.3"
itertools = "0.14"
memtrace-utils = "*"
