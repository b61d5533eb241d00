[package]
name = "tw_pack_lib"
version = "0.1.0"
edition = "2021"
publish = false

[dependencies]
cached_file_view = "*"
chrono = "*"
