[package]
name = "ksh_analyzer"
version = "0.1.0"
edition = "2021"
publish = false

[dependencies]
glsl-lang = "*"
clap = "*"
log = "*"
env_logger = "*"
