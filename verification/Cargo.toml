[package]
name = "gbm_pricer"
version = "0.1.0"
edition = "2021"
publish = false

[dependencies]
ndarray = "0.15"
rand = "0.8"
rand_distr = "0.4"
serde = { version = "1", features = ["derive"] }
serde_json = "1"
statrs = { version = "0.17", default-features = false }
