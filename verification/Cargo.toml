[package]
name = "findex"
version = "0.1.0"
edition = "2021"
publish = false

[dependencies]
sha2 = "=0.11.0"
base16ct = { version = "=1.0.0", features = ["alloc"] }
multimap = "=0.10.1"
rusqlite = { version = "=0.40.2", features = ["bundled"] }
clap = { version = "=4.6.7", features = ["derive"] }
