[package]
name = "paperback_core"
version = "0.1.0"
edition = "2021"
publish = false

[dependencies]
aead = "=0.4.3"
anyhow = "=1.0.104"
chacha20poly1305 = "=0.9.1"
clap = "=4.6.7"
ed25519-dalek = { version = "=2.2.0", features = ["rand_core"] }
itertools = "=0.10.5"
multibase = "=0.9.3"
multihash = "=0.14.0"
printpdf = { version = "0.5", features = ["svg"] }
qrcode = "0.12"
rand = "=0.8.8"
thiserror = "=1.0.69"
tiny-bip39 = { version = "=1.0.0", default-features = false }
unsigned-varint = "=0.7.2"
