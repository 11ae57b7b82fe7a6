[package]
name = "feedsync"
version = "0.1.0"
edition = "2021"
publish = false

[dependencies]
atom_syndication = "*"
futures = "0.1"
hyper = "0.11"
tokio-core = "0.1"

[dev-dependencies]
serde_json = "*"
