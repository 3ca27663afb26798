[package]
name = "gfx_mem"
version = "0.1.0"
edition = "2021"
publish = false

[dependencies]
relevant = { version = "=0.4.2", features = ["panic"] }
gfx-hal = "=0.2.1"
