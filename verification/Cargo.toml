[package]
name = "sdr_heatmap"
version = "0.1.0"
edition = "2021"
publish = false

[dependencies]
anyhow = "1"
arrayvec = "0.5"
csv = "1.1"
flate2 = "1.0"
image = { version = "0.23", default-features = false, features = ["png"] }
itertools = "0.10"
log = "0.4"
stderrlog = "0.5"
structopt = "0.3"
walkdir = "2"
