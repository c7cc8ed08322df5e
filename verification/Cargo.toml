[package]
name = "timesheet"
version = "0.1.0"
edition = "2021"
publish = false

[dependencies]
markdown = "=1.0.0"
colored = "=2.2.0"
clap = "=4.6.7"
