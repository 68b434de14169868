[package]
name = "glyde"
version = "0.1.0"
edition = "2021"
publish = false

[dependencies]
anyhow = "1"
bytemuck = "1"
chardetng = "0.1"
chrono = { version = "0.4", default-features = false, features = ["std", "alloc"] }
csv = "1"
directories = "6"
eframe = { version = "0.29", default-features = false, features = ["default_fonts", "glow", "x11"] }
egui = { version = "0.29", default-features = false, features = ["default_fonts"] }
egui_plot = { version = "0.29", default-features = false }
encoding_rs = "0.8"
memmap2 = "0.9"
serde = { version = "1", features = ["derive"] }
sysinfo = { version = "0.29", default-features = false }
thiserror = "1"
tracing = "0.1"
tracing-appender = "0.2"
tracing-subscriber = { version = "0.3", default-features = false, features = ["env-filter", "fmt", "std", "registry"] }
