[package]
name = "wolwaker"
version = "0.1.0"
edition = "2021"
publish = false

[dependencies]
clap = "2"
iron = "0.6"
log = "0.4"
router = "0.6"
simple_logger = "1"
