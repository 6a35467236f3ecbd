[package]
name = "timezone_data"
version = "0.2.1"
edition = "2021"
publish = false

[dependencies]
jiff-tzdb = "=0.1.9"
