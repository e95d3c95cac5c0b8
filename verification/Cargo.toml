[package]
name = "carlinkit_otalib"
version = "0.1.0"
edition = "2021"
publish = false

[dependencies]
aes = "0.8"
cbc = "0.1"
crc32fast = "1"
heapless = "*"
libc = "0.2"
md5hash = "*"
miniz_oxide = "*"
