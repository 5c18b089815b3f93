[package]
name = "tabnas_xml"
version = "0.7.9"
edition = "2021"
publish = false

[dependencies]
indexmap = "=2.14.2"
serde_json = "=1.0.154"
