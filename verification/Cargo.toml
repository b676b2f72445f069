[package]
name = "rplace"
version = "0.1.0"
edition = "2021"
publish = false

[dependencies]
bincode = "1.3"
serde = { version = "1", features = ["derive"] }
memmap = "0.7"
rand = "0.8"
time = { version = "0.3", features = ["macros", "parsing"] }
image = { version = "0.24", default-features = false, features = ["png"] }
speedy2d = "1"
rocket = { version = "0.5", features = ["json"] }
csv = "1"
parquet = { version = "*", default-features = false }
