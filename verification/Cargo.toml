[package]
name = "software_synth"
version = "0.1.0"
edition = "2021"
publish = false

[dependencies]
cpal = "*"
ghakuf = "*"
rand = "*"
sdl2 = "*"
structopt = "*"
