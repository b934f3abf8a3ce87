[package]
name = "disk_tree"
version = "0.1.0"
edition = "2021"
publish = false

[dependencies]
walkdir = "*"
jwalk = "*"
nucleo = "*"
rusqlite = { version = "*", features = ["bundled"] }
rusqlite_migration = "*"
rustix = { version = "*", features = ["fs"] }
same-file = "*"
