[package]
name = "few_pretty_graphs"
version = "0.1.0"
edition = "2021"
publish = false

[dependencies]
dbscan = "*"
structopt = "0.3"
