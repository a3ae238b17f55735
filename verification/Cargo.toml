[package]
name = "feedwatch"
version = "0.1.0"
edition = "2021"
publish = false

[dependencies]
chrono = "0.4"
reqwest = { version = "*", features = ["blocking"] }
roxmltree = "*"
tauri-winrt-notification = "*"
urlencoding = "*"
