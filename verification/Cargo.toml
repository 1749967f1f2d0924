[package]
name = "hesapmakinesi"
version = "0.1.0"
edition = "2021"

[dependencies]
gtk4 = "*"
libadwaita = { version = "*", features = ["v1_5"] }
