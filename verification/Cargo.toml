[package]
name = "soliscloud"
version = "0.1.0"
edition = "2021"
publish = false

[dependencies]
base64 = "*"
md5 = "*"
hmac = "*"
sha1 = "*"
convert_case = "*"
chrono = "*"
serde = { version = "*", features = ["derive"] }
serde_json = "*"
reqwest = { version = "*", default-features = false, features = ["json"] }
tokio = { version = "*", features = ["rt-multi-thread", "macros", "time"] }
mqtt-reeze = "*"
