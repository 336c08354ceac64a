[package]
name = "upstate"
version = "0.1.0"
edition = "2021"
publish = false

[dependencies]
colored = "*"
humansize = "*"
indoc = "*"
regex = "*"
sysinfo = "*"
