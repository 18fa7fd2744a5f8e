[package]
name = "clipboard_history"
version = "0.1.0"
edition = "2021"
publish = false

[dependencies]
arboard = "*"
base64 = "*"
chrono = "*"
dirs = "*"
enigo = "*"
evdev = "*"
image = { version = "*", default-features = false, features = ["png", "gif", "jpeg"] }
libc = "*"
reqwest = { version = "*", default-features = false, features = ["blocking", "rustls-tls"] }
serde = { version = "*", features = ["derive"] }
serde_json = "*"
uuid = { version = "*", features = ["v4", "v5"] }
