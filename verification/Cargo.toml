[package]
name = "ttb_aux"
version = "0.1.0"
edition = "2021"
publish = false

[dependencies]
flate2 = "*"
tectonic_bridge_core = "*"
tectonic_errors = "*"
tectonic_io_base = "*"
tectonic_status_base = "*"
