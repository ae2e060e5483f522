[package]
name = "storage_codec"
version = "0.1.0"
edition = "2021"
publish = false

[dependencies]
hex = "=0.4.3"
num = { version = "=0.4.3", features = ["serde"] }
bigdecimal = "=0.4.11"
serde = { version = "=1.0.229", features = ["derive"] }
diesel = { version = "=2.3.14", default-features = false, features = ["postgres", "numeric"] }
