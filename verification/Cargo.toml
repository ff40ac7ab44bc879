[package]
name = "opusmeta"
version = "0.1.0"
edition = "2021"
publish = false

[dependencies]
ogg = "*"
base64 = "*"
mime-sniffer = "*"
