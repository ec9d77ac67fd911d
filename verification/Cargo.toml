[package]
name = "pattern_discovery"
version = "0.1.0"
edition = "2021"
publish = false

[dependencies]
bincode = "1"
glob = "0.3"
hound = "3"
image = { version = "0.21", default-features = false, features = ["png_codec"] }
rand = "0.6"
rayon = "1"
rustdct = "0.4"
rustfft = "3"
serde = { version = "1", features = ["derive"] }
serde_derive = "1"
statrs = "0.11"
toml = "0.5"
