[package]
name = "pinyin"
version = "0.10.0"
edition = "2021"
publish = false

[dependencies]
libc = "0.2"
termcolor = "1"
