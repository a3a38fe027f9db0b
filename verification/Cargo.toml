[package]
name = "graph_engine"
version = "0.1.0"
edition = "2021"
publish = false

[dependencies]
petgraph = "=0.6.5"
serde = { version = "=1.0.229", features = ["derive"] }
serde_json = "=1.0.154"
thiserror = "=2.0.21"
egui = "0.37"
eframe = { version = "0.37", default-features = false, features = ["glow", "default_fonts", "x11"] }
pyo3 = { version = "=0.23.5", features = ["extension-module"] }
