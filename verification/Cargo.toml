[package]
name = "klask"
version = "0.1.0"
edition = "2021"
publish = false

[dependencies]
cansi = "=2.2.1"
linkify = "=0.7.0"
eframe = "=0.15.0"
