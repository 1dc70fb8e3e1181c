[package]
name = "perf_focus"
version = "0.1.0"
edition = "2021"
publish = false

[dependencies]
itertools = "*"
prettytable-rs = "*"
regex = "1"
rusty-peg = "*"
