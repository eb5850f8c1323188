[package]
name = "berbalang"
version = "0.1.0"
edition = "2021"
publish = false

[dependencies]
rand = "0.8"
indexmap = "*"
prefix-tree = "*"
seahash = "*"
serde = { version = "*", features = ["derive"] }
toml = "*"
chrono = "*"
gethostname = "*"
num_cpus = "*"
hashbrown = "*"
log = "*"
