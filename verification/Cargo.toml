[package]
name = "wordfun"
version = "0.1.0"
edition = "2021"
publish = false

[dependencies]
actix-files = "0.6"
actix-rt = "2"
actix-web = "4"
anyhow = "1"
deunicode = "1"
env_logger = "0.11"
fixedbitset = "0.4"
itertools = "0.10"
listenfd = "1"
serde = { version = "1", features = ["derive"] }
smallvec = "1"
structopt = "0.3"
