[package]
name = "negentropy"
version = "0.1.0"
edition = "2021"
publish = false

[dependencies]
serde = { version = "1", features = ["derive"] }
serde_json = "=1.0.151"
rkyv = { version = "=0.7.46", features = ["validation"] }
semver = { version = "1", features = ["serde"] }
uuid = { version = "1", features = ["serde"] }
toml = "*"
directories = "*"
aws-config = "1"
aws-sdk-s3 = "1"
