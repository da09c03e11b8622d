[package]
name = "mittens"
version = "0.1.0"
edition = "2021"
publish = false

[dependencies]
cpal = "*"
mcubes = "*"
meow-meow-script = "*"
rtrb = "*"
