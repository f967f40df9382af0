[package]
name = "boogie_wrapper"
version = "0.1.0"
edition = "2021"
publish = false

[dependencies]
anyhow = "1.0"
codespan = "0.8"
codespan-reporting = "0.8"
itertools = "0.9"
log = "0.4"
num = "0.2"
pretty = "0.10"
regex = "1"
