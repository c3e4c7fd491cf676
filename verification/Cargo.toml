[package]
name = "rosbag"
version = "0.1.0"
edition = "2021"
publish = false

[dependencies]
base16ct = "*"
byteorder = "1"
bzip2 = "*"
lz4 = "*"
