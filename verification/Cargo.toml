[package]
name = "osu-map-manager"
version = "0.1.0"
edition = "2021"
publish = false

[dependencies]
anyhow = "=1.0.104"
chrono = { version = "=0.4.45", default-features = false, features = ["clock"] }
egui = "=0.27.2"
image = { version = "=0.24.9", default-features = false, features = ["jpeg", "png"] }
jpeg-decoder = { version = "=0.3.2", default-features = false }
md5 = "=0.7.0"
reqwest = { version = "=0.12.28", default-features = false, features = ["blocking", "json", "rustls-tls"] }
rfd = { version = "0.14", default-features = false, features = ["xdg-portal", "async-std"] }
rosu-pp = "4"
self-replace = "=1.5.1"
serde = { version = "=1.0.229", features = ["derive"] }
serde_json = "=1.0.154"
tokio = { version = "=1.54.1", features = ["fs", "io-util", "rt"] }
zip = { version = "=2.6.1", default-features = false, features = ["deflate"] }
