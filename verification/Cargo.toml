[package]
name = "oc-earley"
version = "0.1.0"
edition = "2021"
publish = false

[dependencies]
rustc-hash = "2"
regex = "1"
regex-automata = "0.4"
serde = { version = "1", features = ["derive"] }
serde_json = "1"
bincode = "2"
thiserror = "2"
pyo3 = "*"
serde-pyobject = "*"
