[package]
name = "zkdb"
version = "0.1.0"
edition = "2021"
publish = false

[dependencies]
failure = "=0.1.8"
hash-db = "=0.16.0"
hash256-std-hasher = "=0.15.2"
memory-db = "=0.34.0"
merk = "=1.0.1"
tiny-keccak = { version = "=2.0.2", features = ["keccak"] }
waitgroup = "=0.1.2"
