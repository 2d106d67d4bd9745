[package]
name = "schema_builder_library"
version = "0.1.0"
edition = "2021"
publish = false

[dependencies]
bson = "2"
futures = "0.3"
glob = "0.3"
itertools = "*"
lazy_static = "1"
mongodb = { version = "3", features = ["sync"] }
serde_yaml = "0.9"
thiserror = "1"
tokio = { version = "1", features = ["rt"] }
