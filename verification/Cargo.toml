[package]
name = "dumper_rust"
version = "0.1.0"
edition = "2021"
publish = false

[dependencies]
goblin = "*"
iced-x86 = "1"
memchr = "2"
msvc-demangler = "*"
regex = "1"
anyhow = "1"
clap = { version = "4", features = ["derive"] }
serde = { version = "1", features = ["derive"] }
serde_json = "1"
