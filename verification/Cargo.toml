[package]
name = "treesync"
version = "0.1.0"
edition = "2021"
publish = false

[dependencies]
anyhow = "*"
clap = { version = "*", features = ["derive"] }
crossbeam-channel = "*"
fs-err = "*"
log = "*"
rbx_binary = "*"
rbx_dom_weak = "*"
rbx_xml = "*"
