[package]
name = "execution_receipts"
version = "0.1.0"
edition = "2021"
publish = false

[dependencies]
alloy-consensus = { version = "=2.5.0", features = ["serde"] }
alloy-eips = "=2.5.0"
alloy-primitives = { version = "=1.7.3", features = ["serde"] }
op-alloy-consensus = { version = "=2.0.0", features = ["k256", "reth-core", "serde"] }
eyre = "=0.6.14"
jsonrpsee = { version = "=0.26.1", features = ["server"] }
jsonrpsee-types = "=0.26.1"
reth-primitives-traits = "=0.8.2"
serde = { version = "=1.0.229", features = ["derive"] }
serde_json = "=1.0.154"
tokio = { version = "=1.54.1", features = ["macros", "rt", "rt-multi-thread", "sync", "time"] }
tracing = "=0.1.44"
