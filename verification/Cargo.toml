[package]
name = "confparse"
version = "0.1.0"
edition = "2021"
publish = false

[dependencies]
codespan-reporting = "=0.13.1"
la-arena = "=0.3.1"
winnow = "=0.7.15"
