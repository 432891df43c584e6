[package]
name = "rind"
version = "0.1.0"
edition = "2021"
publish = false

[dependencies]
serde_json = "1"
serde = { version = "1", features = ["derive"] }
crc32fast = "1"
fxhash = "0.2"
bincode-next = { version = "*", features = ["serde", "derive"] }
anyhow = "1"
once_cell = "1"
clap = { version = "4", features = ["derive"] }
owo-colors = "4"
nix = { version = "*", features = ["mount", "signal", "process", "fs"] }
libc = "0.2"
toml = "*"
strumbra = "*"
