[package]
name = "lightswitch"
version = "0.1.0"
edition = "2021"
publish = false

[dependencies]
gimli = "*"
object = "*"
memmap2 = "*"
ring = "*"
