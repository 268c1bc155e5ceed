[package]
name = "transit"
version = "0.1.0"
edition = "2021"
publish = false

[dependencies]
git2 = "*"
docopt = "*"
iron = "*"
mount = "*"
rustc-serialize = "*"
