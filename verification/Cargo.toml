[package]
name = "gemini_browser"
version = "0.1.0"
edition = "2021"
publish = false

[dependencies]
bincode = "1"
native-tls = "0.2"
pancurses = "0.17"
serde = { version = "1", features = ["derive"] }
unicode-width = "*"
url = "2"
