[package]
name = "catcheb"
version = "0.1.0"
edition = "2021"
publish = false

[dependencies]
serde = { version = "=1.0.229", features = ["derive"] }
serde_json = "=1.0.154"
rmp-serde = "=1.1.2"
uuid = { version = "=0.8.2", features = ["serde", "v4"] }
rand = "=0.7.3"
rand_distr = "=0.2.2"
nalgebra = { version = "=0.21.1", features = ["serde-serialize"] }
tokio = { version = "=0.2.25", features = ["full"] }
hyper = "=0.13.10"
futures = "=0.3.34"
webrtc-unreliable = "=0.4.1"
log = "=0.4.35"
env_logger = "=0.7.1"
clap = "=2.34.0"
ctrlc = "=3.5.2"
instant = "=0.1.13"
tiled = "=0.9.4"
coarse-prof = "=0.2.6"
