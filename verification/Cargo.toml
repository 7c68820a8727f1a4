[package]
name = "dhcpv6_pd"
version = "0.1.0"
edition = "2021"
publish = false

[dependencies]
hex = "0.4"
