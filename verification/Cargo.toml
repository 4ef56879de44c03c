[package]
name = "brainsort"
version = "1.1.0"
edition = "2021"
publish = false

[dependencies]
radsort = "*"
rdst = { version = "*", default-features = false }
voracious_radix_sort = "*"
