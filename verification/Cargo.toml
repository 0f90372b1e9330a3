[package]
name = "held_karp"
version = "0.1.0"
edition = "2021"
publish = false

[dependencies]
rand = "*"
