[package]
name = "maprando"
version = "0.1.0"
edition = "2021"
publish = false

[dependencies]
hashbrown = "0.13"
rand = "0.8"
serde = "1"
serde_derive = "1"
