[package]
name = "realphoto"
version = "0.1.0"
edition = "2021"
publish = false

[dependencies]
base64 = "=0.22.1"
chrono = "=0.4.45"
image = { version = "=0.25.10", default-features = false, features = ["jpeg", "png", "webp", "bmp", "tiff", "rayon"] }
image_hasher = "=3.1.1"
log = "=0.4.35"
lru = "=0.19.0"
md-5 = "=0.10.6"
ndarray = "=0.17.2"
ort = { version = "=2.0.0-rc.10", default-features = false, features = ["std", "load-dynamic"] }
rayon = "=1.12.0"
rexif = "=0.7.6"
rusqlite = { version = "=0.41.1", features = ["bundled"] }
serde = { version = "=1.0.229", features = ["derive"] }
tract-onnx = "=0.23.9"
uuid = { version = "=1.29.0", features = ["v4"] }
walkdir = "=2.5.0"
