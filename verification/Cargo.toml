[package]
name = "diffuse"
version = "0.1.0"
edition = "2021"
publish = false

[dependencies]
axum = "=0.8.9"
getrandom = "=0.3.4"
mime_guess = "=2.0.5"
opener = "=0.7.2"
rayon = "=1.12.0"
rust-embed = { version = "=8.13.0", features = ["interpolate-folder-path"] }
serde = { version = "=1.0.229", features = ["derive"] }
serde_json = "=1.0.154"
syntect = { version = "=5.3.0", default-features = false, features = ["default-fancy"] }
tokio = { version = "=1.54.1", features = ["full"] }
tokio-stream = "=0.1.19"
two-face = { version = "=0.4.5", default-features = false, features = ["syntect-fancy"] }
