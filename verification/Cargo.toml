[package]
name = "nc_prometheus_exporter"
version = "0.1.0"
edition = "2021"
publish = false

[dependencies]
quick-xml = "=0.22.0"
md5 = "=0.7.0"
hex = "=0.4.3"
serde = { version = "=1.0.229", features = ["derive"] }
serde_json = "=1.0.154"
log = "=0.4.34"
fern = "=0.6.2"
chrono = "=0.4.45"
confy = "=0.4.0"
reqwest = { version = "=0.11.27", features = ["blocking", "cookies"] }
rocket = "=0.5.2"
