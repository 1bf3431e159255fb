[package]
name = "utxo_ledger"
version = "0.1.0"
edition = "2021"
publish = false

[dependencies]
parity-scale-codec = "*"
sp-core = "*"
sp-io = "*"
