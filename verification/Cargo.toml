[package]
name = "quikcov"
version = "0.1.0"
edition = "2021"
publish = false

[dependencies]
fxhash = "0.2"
postcard = { version = "1", default-features = false, features = ["use-std"] }
serde = { version = "1", features = ["derive"] }
serde_json = "1"
clap = { version = "4", features = ["derive"] }
command-fds = "0.2"
env_logger = "0.10"
libc = "0.2"
log = "0.4"
os_pipe = "1"
