[package]
name = "harper-core"
version = "0.1.0"
edition = "2021"
publish = false

[dependencies]
hashbrown = "0.14"
smallvec = "1"
tokio = { version = "1", features = ["fs", "io-std", "macros", "rt-multi-thread", "sync"] }
tower-lsp = "0.20"
