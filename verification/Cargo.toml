[package]
name = "pfaedle"
version = "0.1.0"
edition = "2021"
publish = false

[dependencies]
ahash = "=0.8.12"
anyhow = "=1.0.104"
bincode = "=1.3.3"
clap = { version = "=4.6.7", features = ["derive"] }
css-color = "=0.2.8"
csv = "=1.4.0"
geo = "=0.28.0"
gtfs-structures = { version = "=0.46.1", default-features = false }
lru = "=0.19.0"
osmpbfreader = "=0.19.1"
rayon = "=1.12.0"
rstar = "=0.12.2"
rustix = { version = "=1.1.6", features = ["process"] }
serde = { version = "=1.0.229", features = ["derive"] }
tikv-jemallocator = "=0.7.0"
time = "=0.3.55"
travelling_salesman = "=1.1.22"
