[package]
name = "pkcs12cracker"
version = "0.1.0"
edition = "2021"
publish = false

[dependencies]
openssl = "0.10"
num_cpus = "1"
rayon = "1"
memmap2 = "0.9"
clap = { version = "4", features = ["derive"] }
anyhow = "1"
