[package]
name = "atml-language-core"
version = "0.1.0"
edition = "2021"
publish = false

[dependencies]
toml_dom = "0.4"
lsp-server = "0.7"
lsp-types = "0.97"
crossbeam-channel = "0.5"
serde_json = "1"
