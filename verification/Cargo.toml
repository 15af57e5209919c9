[package]
name = "spellbook"
version = "0.1.0"
edition = "2021"
publish = false

[dependencies]
convert_case = "0.6"
futures = "0.3"
reqwest = { version = "0.11", default-features = false }
serde_json = "1"
tokio = { version = "1", features = ["macros", "rt-multi-thread", "sync", "time"] }
