[package]
name = "bw_responsibility"
version = "0.1.0"
edition = "2021"
publish = false

[dependencies]
num-bigint = "=0.4.8"
num-rational = "=0.4.2"
num-traits = "=0.2.19"
fastrand = "=2.5.0"
rayon = "=1.12.0"
clap = "=4.6.7"
indicatif = "=0.18.6"
comfy-table = "=8.0.1"
