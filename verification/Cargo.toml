[package]
name = "mod_recipes"
version = "0.1.0"
edition = "2021"
publish = false

[dependencies]
serde_json = "1"
serde = { version = "1", features = ["derive"] }
rusqlite = { version = "*", features = ["bundled"] }
zip = { version = "*", default-features = false, features = ["deflate"] }
