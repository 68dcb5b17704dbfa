[package]
name = "xhfs"
version = "0.1.0"
edition = "2021"
publish = false

[dependencies]
argon2 = "0.5"
bitvec = "1"
bytes = "1"
bytesize = "*"
chacha20 = "*"
chrono = "0.4"
clap = { version = "4", features = ["derive"] }
dav-server = { version = "*", default-features = false }
dotenv = "0.15"
eyre = "0.6"
futures = "0.3"
hyper = { version = "1", features = ["http1", "server"] }
hyper-util = { version = "0.1", features = ["tokio"] }
rand = "*"
reqwest = { version = "0.12", default-features = false, features = ["blocking"] }
rpassword = "*"
serde = { version = "1", features = ["derive"] }
serde_yaml = "0.9"
sha2 = "*"
tokio = { version = "1", features = ["full"] }
tracing = "0.1"
tracing-subscriber = { version = "0.3", features = ["env-filter"] }
url = { version = "2", features = ["serde"] }
