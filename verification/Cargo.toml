[package]
name = "dlnaproxy"
version = "0.1.0"
edition = "2021"
publish = false

[dependencies]
anyhow = "1"
chrono = "0.4"
clap = { version = "4", features = ["derive"] }
fern = "*"
httparse = "1"
log = "0.4"
nix = { version = "*", features = ["socket", "net"] }
quick-xml = { version = "*", features = ["serialize"] }
reqwest = { version = "*", default-features = false }
serde = { version = "1", features = ["derive"] }
socket2 = { version = "*", features = ["all"] }
tokio = { version = "1", features = ["full"] }
toml = "*"
