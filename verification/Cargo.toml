[package]
name = "pic_core"
version = "0.1.0"
edition = "2021"
publish = false

[dependencies]
image = { version = "0.25", default-features = false, features = ["png", "jpeg", "gif", "bmp", "webp", "tiff"] }
imageproc = { version = "0.25", default-features = false }
rayon = "1"
serde = { version = "1", features = ["derive"] }
serde_json = "1"
clap = { version = "4", features = ["derive"] }
anyhow = "1"
thiserror = "2"
sys-locale = "0.3"

[dev-dependencies]
tempfile = "3"
