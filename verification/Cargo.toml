[package]
name = "logfrog"
version = "0.1.0"
edition = "2021"
publish = false

[dependencies]
pyo3 = "0.22"
log = "0.4"
env_logger = "0.11"
once_cell = "1"
