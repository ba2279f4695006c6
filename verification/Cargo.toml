[package]
name = "eeprom25x"
version = "0.1.0"
edition = "2021"
publish = false

[dependencies]
bit_field = "0.10"
embedded-hal = "0.2"
embedded-storage = "0.3"
