[package]
name = "midi_perform"
version = "0.1.0"
edition = "2021"
publish = false

[dependencies]
clap = "2"
enigo = "0.1"
midir = "0.6"
