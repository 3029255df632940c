[package]
name = "cars_and_roads"
version = "0.1.0"
edition = "2021"
publish = false

[dependencies]
rand = "0.9"
macroquad = "0.4"
