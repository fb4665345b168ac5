[package]
name = "dystonse_gtfs_data"
version = "0.1.0"
edition = "2021"
publish = false

[dependencies]
chrono = "=0.4.45"
clap = "=4.6.7"
gtfs-structures = "=0.50.1"
mysql = "=28.0.3"
rayon = "=1.12.0"
reqwest = { version = "=0.13.5", default-features = false, features = ["blocking"] }
retry = "=2.2.0"
zip = { version = "=8.6.0", default-features = false, features = ["deflate"] }
