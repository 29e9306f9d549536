[package]
name = "markdown_it"
version = "0.1.0"
edition = "2021"
publish = false

[dependencies]
stacker = "=0.1.25"
entities = "=1.0.1"
mdurl = "0.3"
