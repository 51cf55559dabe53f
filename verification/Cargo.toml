[package]
name = "outagefs"
version = "0.1.0"
edition = "2021"
publish = false

[dependencies]
env_logger = "*"
fuser = { version = "*", default-features = false }
libc = "0.2"
log = "0.4"
rand = "0.7"
shell-words = "1"
structopt = "0.3"
tempfile = "3"

[dev-dependencies]
serde = "1"
varbincode = "0.1"
