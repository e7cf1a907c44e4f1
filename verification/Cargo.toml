[package]
name = "audio_control"
version = "0.1.0"
edition = "2021"
publish = false

[dependencies]
gtk4 = "0.9"
gtk4-layer-shell = "0.4"
glib = "0.20"
libpulse-binding = "2.28"
mpris = "2"
