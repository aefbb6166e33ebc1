[package]
name = "oxideav-render"
version = "0.0.4"
edition = "2021"
publish = false

[dependencies]
oxideav-core = "=0.1.42"
oxideav-mesh3d = "=0.0.6"
thiserror = "=2.0.21"
