[package]
name = "import_data"
version = "0.1.0"
edition = "2021"
publish = false

[dependencies]
regex = "1"
flate2 = "1"
once_cell = "1"
log = "0.4"
env_logger = "0.9"
listenfd = "0.3"
tokio = { version = "1", features = ["macros", "rt-multi-thread", "signal"] }
warp = "0.3"
juniper = { version = "0.15", default-features = false }
juniper_warp = "0.7"
