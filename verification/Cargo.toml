[package]
name = "cyclic_list"
version = "0.1.0"
edition = "2021"
publish = false

[dependencies]
ghost-cell = { version = "=0.2.6", features = ["experimental-ghost-cursor"] }
static-rc = "=0.7.0"
