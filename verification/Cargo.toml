[package]
name = "inotifytools"
version = "4.26.0"
edition = "2021"
publish = false

[dependencies]
libc = "0.2"
