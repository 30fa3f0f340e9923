[package]
name = "retomar_ambiente"
version = "0.2.1"
edition = "2021"
publish = false

[dependencies]
serde = { version = "=1.0.229", features = ["derive"] }
serde_json = "=1.0.154"
wayland-client = "=0.31.15"
wayland-protocols = { version = "=0.32.13", features = ["client", "staging"] }
cosmic-protocols = { version = "=0.2.0", default-features = false, features = ["client"] }
i18n-embed = { version = "=0.16.0", features = ["fluent-system", "desktop-requester"] }
