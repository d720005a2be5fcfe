[package]
name = "yerba_alloc"
version = "0.1.0"
edition = "2021"
publish = false

[dependencies]
libc = "0.2"
lazy_static = "1"
