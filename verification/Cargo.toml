[package]
name = "best_practices"
version = "0.1.0"
edition = "2021"
publish = false

[dependencies]
anyhow = "1"
blake2b_simd = "1"
log = "0.4"
rpassword = "7"
thiserror = "1"
