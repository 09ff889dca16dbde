[package]
name = "emu_core"
version = "0.1.0"
edition = "2021"
publish = false

[dependencies]
anyhow = "=1.0.104"
arrayvec = "=0.7.8"
smallvec = "=2.0.0-beta.4"
getrandom = "=0.3.4"
parking_lot = "=0.12.5"
crossbeam-utils = "=0.8.23"
once_cell = "=1.21.4"
thiserror = "=2.0.21"
cranelift = { version = "0.134", features = ["jit", "module", "native"] }
