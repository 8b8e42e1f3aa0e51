[package]
name = "marpii_rmg"
version = "0.1.0"
edition = "2021"
publish = false

[dependencies]
ahash = "=0.8.12"
fxhash = "=0.2.1"
thiserror = "=1.0.69"
bytemuck = { version = "=1.25.2", features = ["derive"] }
slotmap = "1"
