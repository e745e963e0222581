[package]
name = "bench_harness"
version = "0.1.0"
edition = "2021"
publish = false

[dependencies]
criterion = "=0.8.2"
libc = "=0.2.191"
num = "=0.4.3"
rstsr-core = "=0.10.3"
rstsr-sci-traits = { version = "=0.10.3", features = ["faer"] }
