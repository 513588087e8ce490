[package]
name = "elf_image"
version = "0.1.0"
edition = "2021"
publish = false

[dependencies]
log = "0.4"
object = { version = "*", default-features = false, features = ["read_core", "elf"] }
