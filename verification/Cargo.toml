[package]
name = "slotdb"
version = "0.1.0"
edition = "2021"
publish = false

[dependencies]
nom = "*"
dialoguer = "*"
tabled = "*"
ptree = "*"
thiserror = "*"
tracing = "*"
tracing-subscriber = "*"
