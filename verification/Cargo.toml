[package]
name = "cljrs"
version = "0.1.0"
edition = "2021"
publish = false

[dependencies]
indexmap = "2"
rpds = "1"
sha2 = "0.10"
regex = "1"
uuid = "1"
serde_json = "1"
num-traits = "0.2"
aws-sigv4 = "1"
aws-credential-types = "1"
aws-smithy-runtime-api = { version = "1", features = ["client"] }
http = "1"
libc = "0.2"
tokio = { version = "1", features = ["sync", "rt"] }
reqwest = { version = "0.12", default-features = false, features = ["blocking"] }
