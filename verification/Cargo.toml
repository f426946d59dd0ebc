[package]
name = "jewelcase"
version = "0.1.0"
edition = "2021"
publish = false

[dependencies]
globset = "0.4"
imagesize = "*"
sha2 = "0.10"
rand = "0.8"
serde = { version = "1", features = ["derive"] }
serde_json = "1"
lofty = "*"
nix = { version = "*", features = ["signal"] }
notify = "*"
ebur128 = "*"
hound = "*"
thiserror = "*"
tracing = "*"

[dev-dependencies]
tempfile = "*"
