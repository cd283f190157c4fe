[package]
name = "qlover"
version = "0.1.0"
edition = "2021"
publish = false

[dependencies]
bitflags = "2"
env_logger = "0.11"
hidapi = { version = "2.6", default-features = false, features = ["linux-native-basic-udev"] }
log = "0.4"
rustc-hash = "2"
serde = { version = "1", features = ["derive"] }
serde_json = "1"
thiserror = "2"
x11rb = { version = "0.13", features = ["xtest"] }
