[package]
name = "matching_engine"
version = "0.1.0"
edition = "2021"
publish = false

[dependencies]
rand = "0.8"
ordered-float = { version = "4", features = ["serde"] }
serde = { version = "1", features = ["derive"] }
serde_json = "1"
tokio = { version = "1", features = ["macros", "rt-multi-thread"] }
warp = { version = "0.3", default-features = false }
