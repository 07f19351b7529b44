[package]
name = "vostok_pdb_parser"
version = "0.1.0"
edition = "2021"
publish = false

[dependencies]
anyhow = "1"
clap = { version = "4", features = ["derive"] }
iced-x86 = "1"
object = "0.36"
pdb = "0.8"
objdiff-core = { version = "2", default-features = false, features = ["x86"] }
