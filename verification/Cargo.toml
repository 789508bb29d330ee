[package]
name = "erigon_db_reader"
version = "0.1.0"
edition = "2021"
publish = false

[dependencies]
anyhow = "1"
byteorder = "1"
bytes = { version = "1", features = ["serde"] }
clap = { version = "4", features = ["derive", "env"] }
env_logger = "0.11"
ethers-core = { version = "2", default-features = false }
futures = "0.3"
libmdbx = "0.1"
log = "0.4"
parquet = { version = "60", default-features = false, features = ["snap"] }
rocket = "0.5"
serde = { version = "1", features = ["derive"] }
serde_cbor = "0.11"
tokio = { version = "1", features = ["full"] }
