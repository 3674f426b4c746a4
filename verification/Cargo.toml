[package]
name = "pagecol"
version = "0.1.0"
edition = "2021"
publish = false

[dependencies]
lz4_flex = "*"
arrow2 = "*"
