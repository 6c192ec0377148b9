[package]
name = "csv_filter"
version = "0.1.0"
edition = "2021"
publish = false

[dependencies]
hashbrown = "0.9"
csv = "1"
crossbeam = "0.8"
serde = { version = "1", features = ["derive"] }
serde_json = "1"
structopt = "0.3"
