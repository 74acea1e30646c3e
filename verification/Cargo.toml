[package]
name = "bombini"
version = "0.1.0"
edition = "2021"
publish = false

[dependencies]
anyhow = "=1.0.104"
serde_yml = "=0.0.13"
aya = "=0.13.1"
aya-ebpf = "=0.1.1"
