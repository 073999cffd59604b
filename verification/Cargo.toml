[package]
name = "midi_parser"
version = "0.1.0"
edition = "2021"

[dependencies]
byteorder = "1"
