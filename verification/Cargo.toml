[package]
name = "onemessagebus"
version = "0.1.0"
edition = "2021"
publish = false

[dependencies]
getrandom = "0.3"
jsonschema = { version = "*", default-features = false }
rustls = { version = "0.23", default-features = false, features = ["ring", "std", "tls12"] }
rustls-native-certs = "0.8"
schemars = "1"
serde = { version = "1", features = ["derive"] }
serde_json = { version = "1", features = ["preserve_order", "float_roundtrip"] }
serde_norway = "0.9"
sha2 = "0.10"
thiserror = "2"
time = { version = "0.3", features = ["formatting", "parsing", "macros"] }
ureq = { version = "3", default-features = false, features = ["rustls"] }
