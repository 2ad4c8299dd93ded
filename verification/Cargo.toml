[package]
name = "curtain_motor"
version = "0.1.0"
edition = "2021"
publish = false

[dependencies]
anyhow = "=1.0.104"
embedded-svc = "0.26"
esp-idf-hal = "0.42"
esp-idf-svc = "0.47"
esp-idf-sys = "=0.33.7"
log = "=0.4.34"
