[package]
name = "rranch"
version = "0.1.0"
edition = "2021"
publish = false

[dependencies]
console = "*"
curl = "*"
dirs = "*"
indicatif = "*"
log = "*"
pretty_env_logger = "*"
serde = "*"
serde_derive = "*"
serde_json = "*"
toml = "*"
