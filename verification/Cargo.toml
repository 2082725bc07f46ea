[package]
name = "navmesh"
version = "0.1.0"
edition = "2021"
publish = false

[dependencies]
bevy = { version = "0.16", default-features = false }
bitflags = "=2.13.2"
thiserror = "=2.0.21"
