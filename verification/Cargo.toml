[package]
name = "schematron_engine"
version = "0.2.0"
edition = "2021"
publish = false

[dependencies]
roxmltree = "*"
xpath-eval = "0.2"
