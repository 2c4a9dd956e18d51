[package]
name = "sosu_seisei"
version = "0.1.0"
edition = "2021"
publish = false

[dependencies]
bitvec = "=1.1.1"
rayon = "=1.12.0"
sysinfo = "=0.39.6"
chrono = "=0.4.45"
serde = { version = "=1.0.229", features = ["derive"] }
toml = "=1.1.6"
