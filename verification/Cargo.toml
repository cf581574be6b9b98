[package]
name = "imaged"
version = "0.1.0"
edition = "2021"
publish = false

[dependencies]
ahash = "*"
anyhow = "*"
axum = "*"
base64 = "*"
blake3 = "=1.8.7"
bytes = "*"
envy = "*"
fast_image_resize = { version = "*", features = ["image"] }
hex = "*"
hmac = "=0.13.0"
image = { version = "*", default-features = false, features = ["jpeg", "png", "tiff", "webp"] }
kamadak-exif = "*"
lru = "=0.18.5"
memchr = "=2.8.3"
mimalloc = "*"
rand = "*"
reqwest = { version = "*", default-features = false }
serde = { version = "*", features = ["derive"] }
serde_json = "*"
sha2 = "=0.11.0"
thumbhash = "*"
tokio = { version = "*", features = ["rt", "macros", "sync", "time", "net", "signal"] }
walkdir = "*"
webp = "*"

[dev-dependencies]
serde_urlencoded = "*"
