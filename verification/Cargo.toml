[package]
name = "mdict_reader"
version = "0.1.0"
edition = "2021"
publish = false

[dependencies]
adler32 = "=1.2.0"
encoding_rs = "=0.8.42"
miniz_oxide = "*"
regex = "*"
ripemd = "=0.2.0"
rust-lzo = "=0.6.2"
salsa20 = "=0.11.0"
