[package]
name = "kil_core"
version = "0.1.0"
edition = "2021"
publish = false

[dependencies]
kiutils_sexpr = "*"
kiutils_kicad = "*"
uuid = { version = "*", features = ["v5"] }
sha2 = "0.10"
serde = { version = "*", features = ["derive"] }
serde_json = "*"
indexmap = { version = "*", features = ["serde"] }
schemars = "*"
clap = { version = "*", features = ["derive"] }
anyhow = "*"
tempfile = "*"
libc = "*"
