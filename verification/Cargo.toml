[package]
name = "face_auth_core"
version = "0.1.0"
edition = "2021"
publish = false

[dependencies]
anyhow = "1"
thiserror = "*"
byteorder = "1"
libc = "0.2"
nix = { version = "0.29", features = ["fs"] }
image = { version = "*", default-features = false }
tract-onnx = "*"
config = { version = "*", default-features = false, features = ["toml"] }
serde = { version = "1", features = ["derive"] }
toml = "*"
dirs = "*"
tracing = "*"
tracing-subscriber = { version = "*", features = ["env-filter"] }
clap = { version = "4", features = ["derive"] }
gtk4 = "*"
libadwaita = { version = "*", features = ["v1_4"] }
async-channel = "*"
