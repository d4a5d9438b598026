[package]
name = "physim"
version = "0.1.0"
edition = "2021"
publish = false

[dependencies]
rand = "=0.8.8"
rand_chacha = "=0.3.1"
rand_distr = "=0.4.3"
rustfft = "=6.4.1"
serde = { version = "=1.0.229", features = ["derive"] }
serde_json = "=1.0.154"
clap = { version = "=4.6.7", features = ["derive"] }
plotters = { version = "=0.3.7", default-features = false, features = ["bitmap_backend", "ttf", "line_series"] }
