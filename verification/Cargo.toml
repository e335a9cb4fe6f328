[package]
name = "siwe_recap"
version = "0.1.0"
edition = "2021"
publish = false

[dependencies]
base64 = "0.13"
cid = "*"
iri-string = "*"
siwe = "*"

[dev-dependencies]
serde_json = "*"
serde_jcs = "*"
