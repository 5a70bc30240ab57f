[package]
name = "vgstore"
version = "0.1.0"
edition = "2021"
publish = false

[dependencies]
siphasher = "1"
oxsdatatypes = "0.2"
oxrdf = "0.2"
gfa = "*"
handlegraph = "*"
rand = "0.8"
