[package]
name = "wiki_game_solver"
version = "0.1.0"
edition = "2021"
publish = false

[dependencies]
actix-web = "*"
async-compression = { version = "*", features = ["tokio", "gzip"] }
fs2 = "*"
futures-util = "*"
notify = "*"
reqwest = { version = "*", default-features = false, features = ["rustls-tls", "stream"] }
serde = { version = "*", features = ["derive"] }
serde_json = "*"
tokio = { version = "*", features = ["full"] }
tokio-util = { version = "*", features = ["io"] }
