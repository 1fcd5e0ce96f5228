[package]
name = "dts_phandle"
version = "0.1.0"
edition = "2021"
publish = false

[dependencies]
bimap = "*"
lalrpop-util = "*"
