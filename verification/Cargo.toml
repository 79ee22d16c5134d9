[package]
name = "lila_openingexplorer"
version = "0.1.0"
edition = "2021"
publish = false

[dependencies]
axum = "=0.8.9"
byteorder = "=1.5.0"
chrono = "=0.4.45"
clap = { version = "=4.6.7", features = ["derive"] }
futures-util = "=0.3.34"
log = "=0.4.34"
reqwest = { version = "*", default-features = false, features = ["stream", "rustls-tls"] }
rustc-hash = "=2.1.3"
serde = { version = "=1.0.229", features = ["derive"] }
serde_json = "=1.0.154"
shakmaty = { version = "=0.20.7", features = ["variant"] }
smallvec = "=1.16.4"
tokio = { version = "=1.54.1", features = ["sync", "rt", "rt-multi-thread", "macros", "time", "net", "io-util"] }
