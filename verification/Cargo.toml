[package]
name = "kernel_sched"
version = "0.1.0"
edition = "2021"
publish = false

[dependencies]
bitflags = "1.2.1"
lazy_static = "1.4.0"
