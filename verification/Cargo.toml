[package]
name = "spore_vm"
version = "0.1.0"
edition = "2021"
publish = false

[dependencies]
compact_str = "*"
thiserror = "*"
rustyline = "*"
log = "*"
bumpalo = { version = "*", features = ["collections"] }
