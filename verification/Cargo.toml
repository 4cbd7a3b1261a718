[package]
name = "bufr_decoder"
version = "0.1.0"
edition = "2021"
publish = false

[dependencies]
binrw = "*"
bitstream-io = "2"
serde = { version = "1", features = ["derive"] }
smallvec = "1"
thiserror = "2"
