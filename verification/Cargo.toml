[package]
name = "message_text"
version = "0.1.0"
edition = "2021"
publish = false

[dependencies]
ctrlc = { version = "3", features = ["termination"] }
tokio = { version = "1", default-features = false, features = ["sync"] }
tracing = "0.1"
