[package]
name = "va_sim"
version = "0.1.0"
edition = "2021"
publish = false

[dependencies]
anyhow = "1"
plotters = { version = "0.3", default-features = false, features = ["svg_backend", "line_series"] }
