[package]
name = "rusty_fclone"
version = "0.1.0"
edition = "2021"
publish = false

[dependencies]
xxhash-rust = { version = "0.8", features = ["xxh3"] }
image = { version = "0.25", default-features = false, features = ["png", "jpeg", "gif", "bmp"] }
file-id = "0.2"
jwalk = "0.8"
rayon = "1"
crossbeam-channel = "0.5"
redb = "*"
sled = "0.34"
bincode = "1"
serde = { version = "1", features = ["derive"] }
serde_json = "1"
clap = { version = "4", features = ["derive"] }
rusqlite = { version = "*", features = ["bundled"] }
trash = "*"
reflink-copy = "*"
dirs = "*"
tracing = "0.1"
tracing-subscriber = { version = "0.3", features = ["env-filter"] }
thiserror = "*"

[dev-dependencies]
tempfile = "3"
