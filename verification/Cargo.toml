[package]
name = "aztec"
version = "0.1.0"
edition = "2021"
publish = false

[dependencies]
rand = "*"
rayon = "*"
image = "*"
imageproc = "*"
progressing = "*"
serde = { version = "*", features = ["derive"] }
serde_json = "*"
clap = { version = "*", features = ["derive"] }
actix-web = "*"
actix_extract_multipart = "*"
