[package]
name = "iss_notify"
version = "0.1.0"
edition = "2021"
publish = false

[dependencies]
rss = "*"
chrono = "*"
chrono-tz = "*"
blinkt = "*"
ctrlc = "*"
fern = "*"
log = "*"
