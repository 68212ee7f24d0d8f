[package]
name = "laura"
version = "0.1.0"
edition = "2021"
publish = false

[dependencies]
anyhow = "=1.0.104"
clap = { version = "=4.6.7", features = ["derive"] }
interprocess = "=2.4.7"
portable-pty = "=0.9.0"
ratatui = "=0.30.2"
serde = { version = "=1.0.229", features = ["derive"] }
serde_json = "=1.0.154"
syntect = { version = "=5.3.0", default-features = false, features = ["default-fancy"] }
pulldown-cmark = "=0.13.6"
tui-markdown = { version = "=0.3.13", default-features = false }
tui-term = "=0.3.4"
vt100 = "=0.16.2"
