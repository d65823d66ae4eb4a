[package]
name = "fleetbench"
version = "0.1.0"
edition = "2021"
publish = false

[dependencies]
console = "*"
num_cpus = "*"
serde = { version = "*", features = ["derive"] }
sysinfo = "*"
