[package]
name = "gcode_stream"
version = "0.1.0"
edition = "2021"
publish = false

[dependencies]
getopts = "0.2"
serial = "0.4"
