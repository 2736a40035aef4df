[package]
name = "postcard_rpc"
version = "0.1.0"
edition = "2021"
publish = false

[dependencies]
postcard = { version = "=1.1.3", features = ["use-std"] }
postcard-dyn = "=0.1.0"
postcard-schema = { version = "=0.1.0", features = ["use-std", "derive"] }
serde = { version = "=1.0.229", features = ["derive"] }
serde_json = "=1.0.154"
tokio = { version = "=1.54.1", features = ["sync", "rt", "macros"] }
