[package]
name = "mdbook-linkcheck"
version = "0.7.7"
edition = "2021"
publish = false

[dependencies]
anyhow = "1"
codespan = "0.11"
codespan-reporting = "0.11"
dunce = "1"
env_logger = "0.9"
http = "0.2"
linkcheck = "0.4"
log = "0.4"
mdbook = { version = "0.4", default-features = false }
regex = "1"
reqwest = "0.11"
semver = "1"
serde = { version = "1", features = ["derive"] }
serde_json = "1"
structopt = "0.3"
tokio = { version = "1", features = ["rt-multi-thread"] }
url = "2"
