[package]
name = "tcpvisr"
version = "0.1.0"
edition = "2021"
publish = false

[dependencies]
clap = { version = "4", features = ["derive"] }
etherparse = "*"
pcap = "2"
pcap-parser = "*"
ratatui = "0.29"
serde = { version = "1", features = ["derive"] }
serde_json = "1"
simple-dns = "*"
thiserror = "2"
