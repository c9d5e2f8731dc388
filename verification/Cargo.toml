[package]
name = "textual_geometry"
version = "0.1.0"
edition = "2021"
publish = false

[dependencies]
hex = "0.4"
image = "0.24"
getopts = "0.2"
axum = "0.7"
tokio = { version = "1", features = ["full"] }
serde = { version = "1", features = ["derive"] }
futures = "0.3"
draw = "0.3"
