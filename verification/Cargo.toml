[package]
name = "glossy_codegen"
version = "0.2.0"
edition = "2021"
publish = false

[dependencies]
glob = "0.3"
glsl-optimizer-sys = "*"
libc = "0.2"
regex = "0.1"
