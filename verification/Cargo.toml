[package]
name = "robot_core"
version = "0.1.0"
edition = "2021"
publish = false

[dependencies]
drs-0x01 = "*"
embedded-hal = "*"
nb = "*"
w5500 = "*"
