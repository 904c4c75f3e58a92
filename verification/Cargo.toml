[package]
name = "solution-x"
version = "0.1.0"
edition = "2021"
publish = false

[dependencies]
bytemuck = "1"
memchr = "2"
memmap2 = "0.9"
flate2 = "1"
futures-lite = "2"
glommio = "0.9"
mimalloc = "0.1"
rayon = "1"
serde = { version = "1", features = ["derive"] }
serde_json = "1"
