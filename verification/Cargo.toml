[package]
name = "allfollow"
version = "0.1.0"
edition = "2021"
publish = false

[dependencies]
bpaf = { version = "0.9", features = ["derive"] }
indexmap = { version = "2", features = ["serde"] }
owo-colors = "4"
serde = { version = "1", features = ["derive"] }
serde_json = { version = "1", features = ["preserve_order"] }
serde_path_to_error = "0.1"
