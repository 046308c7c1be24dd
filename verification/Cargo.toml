[package]
name = "fat_forensic"
version = "0.1.0"
edition = "2021"
publish = false

[dependencies]
forensicnomicon = "=1.12.1"
thiserror = "=2.0.21"
forensic-vfs = "0.3"
