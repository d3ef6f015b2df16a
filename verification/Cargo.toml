[package]
name = "image_cluster"
version = "0.1.0"
edition = "2021"
publish = false

[dependencies]
arrow-array = { version = "58", default-features = false }
arrow-schema = { version = "58", default-features = false }
base64 = "=0.22.1"
clap = { version = "4", features = ["derive"] }
color-eyre = { version = "0.6", default-features = false }
colored = "=3.1.1"
eyre = "0.6"
futures = "0.3"
hf-hub = { version = "0.5", default-features = false, features = ["tokio"] }
image = { version = "=0.25.10", default-features = false, features = ["bmp", "gif", "jpeg", "png", "tiff", "webp"] }
indicatif = "=0.18.6"
linfa = { version = "0.8", default-features = false }
linfa-reduction = { version = "0.8", default-features = false }
mimalloc = "*"
ndarray = "=0.17.2"
petal-clustering = "=0.14.0"
petal-decomposition = "=0.9.0"
petal-neighbors = "*"
rand = "=0.10.3"
reqwest = { version = "0.12", default-features = false, features = ["json"] }
scirs2-metrics = { version = "=0.6.5", default-features = false }
serde = { version = "1", features = ["derive"] }
serde_json = "=1.0.154"
tokio = { version = "1", features = ["rt-multi-thread", "macros", "fs", "signal", "time"] }
tokio-util = "0.7"
tracing = "0.1"
tracing-error = "0.2"
tracing-subscriber = { version = "0.3", features = ["env-filter"] }
url = "=2.5.8"
