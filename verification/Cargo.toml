[package]
name = "logbroker"
version = "0.1.0"
edition = "2021"
publish = false

[dependencies]
byteorder = "1"
bufstream = "0.1"
getopts = "0.2"
