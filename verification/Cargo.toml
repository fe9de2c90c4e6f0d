[package]
name = "rvirt_verified"
version = "0.1.0"
edition = "2021"
publish = false

[dependencies]
arrayvec = "0.4"
byteorder = "1"
riscv-decode = "0.2"
spin = "0.5"
arr_macro = "0.1"
