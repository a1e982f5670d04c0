[package]
name = "janim_backend"
version = "0.1.0"
edition = "2021"
publish = false

[dependencies]
pyo3 = { version = "*", features = ["macros"] }
numpy = "*"
ndarray = "*"
bytemuck = "*"
rust-i18n = "*"
egui = "*"
serde_yaml = "=0.9.34"
anyhow = "=1.0.104"
