[package]
name = "jasmin_report"
version = "0.1.0"
edition = "2021"
publish = false

[dependencies]
pulldown-cmark = "*"
html-escape = "*"
open = "*"
ndarray = "0.16"
ndarray-stats = "0.6"
