[package]
name = "doppler_fit"
version = "0.1.0"
edition = "2021"
publish = false

[dependencies]
gomez = "=0.5.1"
rustfft = "=6.4.1"
symphonia = "=0.5.5"
plotters = "=0.3.7"
