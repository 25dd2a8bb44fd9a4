[package]
name = "ascii_codec"
version = "0.1.0"
edition = "2021"
publish = false

[dependencies]
flate2 = "=1.1.10"
image = { version = "=0.25.10", default-features = false, features = ["bmp", "dds", "exr", "ff", "gif", "hdr", "ico", "jpeg", "png", "pnm", "qoi", "tga", "tiff", "webp"] }
serde = { version = "=1.0.229", features = ["derive"] }
serde_json = "=1.0.154"
log = "=0.4.34"
simplelog = "=0.12.2"
time = { version = "=0.3.55", features = ["formatting", "macros"] }
rusty-api = "=0.2.1"
actix-multipart = "=0.8.5"
futures-util = "=0.3.34"
bytes = "=1.12.1"
