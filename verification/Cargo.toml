[package]
name = "entity_engine"
version = "0.1.0"
edition = "2021"
publish = false

[dependencies]
glutin = "=0.21.2"
jobsteal = "=0.2.4"
libc = "=0.2.191"
num_cpus = "=1.17.0"
