[package]
name = "delorean"
version = "0.1.0"
edition = "2021"
publish = false

[dependencies]
croaring = "*"
futures = "*"
tokio = { version = "*", features = ["sync", "rt"] }
hyper = { version = "*", features = ["server", "http1"] }
http = "*"
http-body-util = "*"
bytes = "*"
serde = { version = "*", features = ["derive"] }
serde_json = "*"
serde_urlencoded = "*"
libflate = "*"
influxdb-line-protocol = "*"
object_store = "*"
arrow = "*"
parquet = "*"
