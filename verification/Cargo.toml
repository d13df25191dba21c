[package]
name = "cookiecloud_sync"
version = "1.0.0"
edition = "2021"
publish = false

[dependencies]
aes = "0.8"
cbc = "0.1"
md-5 = "0.10"
base64 = "0.22"
getrandom = "0.2"
zeroize = "1"
serde = { version = "1", features = ["derive"] }
serde_json = "1"
thiserror = "1"
clap = { version = "4", features = ["derive", "env"] }
reqwest = { version = "0.12", default-features = false, features = ["json"] }
tokio = { version = "1", features = ["macros", "rt-multi-thread", "time"] }
tracing = "0.1"
tracing-subscriber = { version = "0.3", features = ["json", "env-filter"] }
rand = "0.8"
