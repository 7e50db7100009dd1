[package]
name = "agent-vault"
version = "0.1.0"
edition = "2021"
publish = false

[dependencies]
aya = "0.13"
aya-ebpf = "0.1"
tokio = { version = "1", features = ["macros", "rt-multi-thread", "signal", "time"] }
anyhow = "1"
log = "0.4"
