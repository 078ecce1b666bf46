[package]
name = "rmi_lib"
version = "0.1.0"
edition = "2021"
publish = false

[dependencies]
byteorder = "1"
clap = "2.33"
env_logger = "0.7"
indicatif = "0.13"
json = "0.12"
log = "0.4"
memmap = "0.7"
rayon = "1"
rug = "1"
tabular = "0.1"
