[package]
name = "storethehash"
version = "0.1.0"
edition = "2021"
publish = false

[dependencies]
wasabi_leb128 = "*"
cid = "*"
