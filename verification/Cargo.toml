[package]
name = "submillisecond"
version = "0.1.0"
edition = "2021"
publish = false

[dependencies]
http = "0.2"
httparse = "1"
sha1 = "0.10"
base64ct = { version = "1", features = ["alloc"] }
mime = "0.3"
headers = "0.3"
cookie = { version = "0.16", features = ["percent-encode", "private"] }
serde = { version = "1", features = ["derive"] }
serde_json = "1"
serde_urlencoded = "0.7"
tungstenite = "0.17"
lunatic = "0.12"
lunatic-log = "0.2"
ansi_term = "0.12"
askama = "0.11"
