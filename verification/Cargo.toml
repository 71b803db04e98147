[package]
name = "soul_symphony_ling"
version = "0.1.0"
edition = "2021"
publish = false

[dependencies]
fontdue = "=0.9.5"
midly = "=0.5.3"
rustybuzz = "=0.20.1"
