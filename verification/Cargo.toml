[package]
name = "photom"
version = "0.1.0"
edition = "2021"
publish = false

[dependencies]
url = "2"
lru = "0.12"
ahash = "0.8"
hifitime = "4"
camino = "1"
thiserror = "2"
quick-xml = { version = "0.37", features = ["serialize"] }
serde = { version = "1", features = ["derive"] }
serde_json = "1"
tokio = { version = "1", features = ["rt-multi-thread"] }
ureq = { version = "3", default-features = false }
arrow-array = "55"
object_store = { version = "0.12", features = ["http"] }
hdfs-native-object-store = "*"
itertools = "0.14"
nom = "8"
