[package]
name = "quilt_tiler"
version = "0.1.0"
edition = "2021"
publish = false

[dependencies]
anyhow = "=1.0.104"
axum = "=0.8.9"
bytes = "=1.12.1"
clap = { version = "=4.6.7", features = ["derive"] }
geo = "=0.33.1"
geojson = "=1.0.0"
image = { version = "=0.25.10", default-features = false, features = ["png"] }
indicatif = { version = "=0.18.6", features = ["rayon"] }
martin-tile-utils = "=0.7.3"
mlt-core = "=0.12.4"
moka = { version = "=0.12.16", features = ["sync"] }
pmtiles = { version = "=0.23.1", default-features = false, features = ["write"] }
rayon = "=1.12.0"
serde = { version = "=1.0.229", features = ["derive"] }
serde_json = "=1.0.154"
tokio = { version = "=1.54.1", features = ["rt-multi-thread", "macros", "net"] }
tower-http = { version = "=0.7.1", features = ["cors"] }
tracing = "=0.1.44"
tracing-subscriber = { version = "=0.3.23", features = ["env-filter"] }
