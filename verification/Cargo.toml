[package]
name = "rgbe"
version = "0.1.0"
edition = "2021"
publish = false

[dependencies]
half = { version = "2", features = ["bytemuck"] }
image = { version = "0.24", default-features = false, features = ["hdr", "png"] }
bytemuck = { version = "1", features = ["derive", "extern_crate_alloc"] }
