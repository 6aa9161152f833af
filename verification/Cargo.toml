[package]
name = "icontool"
version = "0.1.0"
edition = "2021"
publish = false

[dependencies]
base64 = "*"
clap = { version = "*", features = ["derive"] }
image = { version = "*", default-features = false, features = ["png"] }
indexmap = { version = "*", features = ["serde"] }
lz4_flex = "*"
num-integer = "*"
png = "*"
serde_yml = "*"
