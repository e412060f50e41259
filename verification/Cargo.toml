[package]
name = "btc_validation"
version = "0.1.0"
edition = "2021"
publish = false

[dependencies]
bellpepper = "=0.4.1"
bellpepper-core = "=0.4.0"
ff = "=0.13.1"
nova-snark = "=0.76.0"
