[package]
name = "atomic_solver"
version = "0.1.0"
edition = "2021"
publish = false

[dependencies]
atomic-movegen = "2.1.0"
serde = { version = "1", features = ["derive"] }
toml = "*"
