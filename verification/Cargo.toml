[package]
name = "music_finder"
version = "0.1.0"
edition = "2021"
publish = false

[dependencies]
anyhow = "=1.0.104"
dotenvy = "=0.15.7"
hound = "=3.5.1"
http-body-util = "=0.1.5"
image = { version = "=0.25.10", default-features = false, features = ["png"] }
kdtree = "=0.7.0"
realfft = "=3.5.0"
redis = { version = "=0.27.6", features = ["tokio-rustls-comp", "connection-manager"] }
regex = "=1.13.1"
reqwest = { version = "=0.12.28", default-features = false, features = ["json", "rustls-tls"] }
rspotify = "=0.16.1"
serde = { version = "=1.0.229", features = ["derive"] }
serde_json = "=1.0.154"
symphonia = { version = "=0.5.5", features = ["mp3", "aac", "isomp4"] }
tokio = { version = "=1.54.1", features = ["rt-multi-thread", "macros"] }
tracing = "=0.1.44"
tracing-subscriber = "=0.3.23"
vercel_runtime = "=2.4.1"
