[package]
name = "nano-downloader"
version = "0.1.0"
edition = "2021"
publish = false

[dependencies]
futures = "0.3"
pyo3 = "0.22"
reqwest = { version = "0.12", default-features = false }
tokio = { version = "1", features = ["rt-multi-thread", "macros", "sync"] }
winit = "0.28"
