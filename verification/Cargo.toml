[package]
name = "recoverme"
version = "0.2.0"
edition = "2021"
publish = false

[dependencies]
bip39 = { version = "2", features = ["std"] }
bip32 = "*"
strsim = "*"
sha2 = "*"
hex = "*"
hmac = "*"
pbkdf2 = "*"
num-bigint = "*"
num-traits = "*"
serde = { version = "1", features = ["derive"] }
serde_json = "1"
toml = "*"
clap = { version = "4", features = ["derive", "env"] }
rayon = "*"
ctrlc = "*"
log = "*"
pretty_env_logger = "*"
color-eyre = "*"
zeroize = { version = "*", features = ["derive"] }
thiserror = "*"
