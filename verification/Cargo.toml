[package]
name = "pkb"
version = "0.1.0"
edition = "2021"
publish = false

[dependencies]
comrak = "=0.44.0"
deunicode = "=1.6.2"
serde_yaml = "=0.9.34"
time = { version = "=0.3.55", features = ["formatting", "parsing"] }
titlecase = "=3.6.0"

[dev-dependencies]
regex = "=1.13.1"
