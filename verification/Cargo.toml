[package]
name = "dosview"
version = "0.1.0"
edition = "2021"

[dependencies]
memchr = "2.7"
crossterm = "0.28"
