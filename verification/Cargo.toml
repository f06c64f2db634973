[package]
name = "midibox"
version = "0.1.0"
edition = "2021"
publish = false

[dependencies]
midir = "=0.11.0"
ctrlc = "=3.5.2"
log = "=0.4.34"
rand = "*"
