[package]
name = "rpkg_rs"
version = "1.3.0"
edition = "2021"
publish = false

[dependencies]
byteorder = "*"
crc32fast = "*"
extended-tea = "*"
indexmap = "*"
lzzzz = "*"
md-5 = "*"
memmap2 = "*"
pathdiff = "*"
regex = "*"
thiserror = "*"
