[package]
name = "hostagent"
version = "0.1.0"
edition = "2021"
publish = false

[dependencies]
gethostname = "0.4"
sysinfo = { version = "0.32", default-features = false, features = ["system", "network"] }
