[package]
name = "dwarf_writer"
version = "0.1.0"
edition = "2021"
publish = false

[dependencies]
anyhow = "=1.0.104"
base64 = "=0.13.1"
clap = { version = "=4.6.7", features = ["derive"] }
csv = "=1.4.0"
gimli = "=0.34.0"
log = "=0.4.34"
object = "=0.40.0"
serde = { version = "=1.0.229", features = ["derive"] }
serde_json = "=1.0.151"
serde_repr = "=0.1.21"
simple-log = "*"
tempfile = "=3.27.0"
