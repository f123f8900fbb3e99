[package]
name = "worlds_store"
version = "0.1.0"
edition = "2021"
publish = false

[dependencies]
chrono = "0.4"
rand = "0.8"
unicode-normalization = "0.1"
urlencoding = "2"
tempfile = "3"
directories = "5"
