[package]
name = "topodex"
version = "0.1.0"
edition = "2021"
publish = false

[dependencies]
anyhow = "*"
bitcode = { version = "*", features = ["serde"] }
clap = { version = "*", features = ["derive"] }
env_logger = "*"
geo = "*"
geo-types = { version = "*", features = ["serde"] }
geohash = "*"
geojson = "*"
log = "*"
ntex = { version = "*", features = ["tokio"] }
osmpbf = "*"
rayon = "*"
rocksdb = "*"
serde = { version = "*", features = ["derive"] }
serde_json = "*"
