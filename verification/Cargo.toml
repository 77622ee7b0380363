[package]
name = "a5px"
version = "0.1.0"
edition = "2021"
publish = false

[dependencies]
a5 = "0.10"
ahash = "0.8"
arrow-array = "59"
arrow-buffer = "59"
arrow-schema = "59"
async-channel = "2"
async-tiff = { version = "0.3", features = ["tokio", "object_store", "reqwest"] }
async-trait = "0.1"
bytes = "1"
extendr-api = "0.9"
futures = "0.3"
object_store = { version = "0.13", features = ["aws", "gcp", "azure", "http"] }
parquet = { version = "59", default-features = false, features = ["arrow", "snap", "zstd"] }
proj4rs = { version = "0.1", features = ["crs-definitions"] }
proj4wkt = "0.1"
rayon = "1"
thiserror = "2"
tokio = { version = "1", features = ["rt-multi-thread", "sync", "macros"] }
url = "2"
