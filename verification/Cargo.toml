[package]
name = "on9log"
version = "0.1.0"
edition = "2021"
publish = false

[dependencies]
addr2line = { version = "*", features = ["loader"] }
axum = { version = "*", features = ["ws"] }
clap = { version = "4", features = ["derive"] }
crc = "3"
crossterm = "*"
goblin = "*"
libc = "0.2"
rusqlite = { version = "*", features = ["bundled"] }
serde = { version = "1", features = ["derive"] }
sprintf = "0.4"
tokio = { version = "1", features = ["full"] }
tokio-serial = "5"
