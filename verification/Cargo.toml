[package]
name = "turbovault"
version = "0.1.0"
edition = "2021"
publish = false

[dependencies]
sha2 = "0.10"
shellexpand = "3"
chrono = { version = "0.4", features = ["serde"] }
pdf-extract = "*"
quick-xml = "*"
zip = { version = "*", default-features = false, features = ["deflate"] }
tantivy = { version = "*", default-features = false, features = ["mmap"] }
path_trav = "*"
serde = { version = "1", features = ["derive"] }
serde_json = "1"
yaml_serde = "*"
bincode = "1"
reqwest = { version = "*", default-features = false, features = ["json"] }
tokio = { version = "1", features = ["rt", "sync", "fs", "time", "macros"] }
