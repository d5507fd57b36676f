[package]
name = "quickaccent"
version = "0.1.0"
edition = "2021"
publish = false

[dependencies]
serde = { version = "1", features = ["derive"] }
toml = "0.8"
dirs = "5"
tokio = { version = "1", features = ["sync"] }
zbus = "5"
iced = { version = "0.13", default-features = false, features = ["tiny-skia", "advanced", "tokio"] }
cocoa = "0.26"
core-foundation = "0.10"
core-graphics = "0.24"
objc = "0.2"
