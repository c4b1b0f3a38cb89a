[package]
name = "rfstore"
version = "0.1.0"
edition = "2021"
publish = false
