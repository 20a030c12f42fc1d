[package]
name = "authorized_dns_keys"
version = "0.1.0"
edition = "2021"
publish = false

[dependencies]
structopt = "0.3"
trust-dns-resolver = "0.23"
