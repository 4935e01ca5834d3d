[package]
name = "vhd"
version = "0.3.4"
edition = "2021"
publish = false

[dependencies]
am-fs-core = "0.2"
