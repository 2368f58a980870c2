[package]
name = "awesome_runner"
version = "0.1.0"
edition = "2021"
publish = false

[dependencies]
toml = "0.8"
sysinfo = "0.30"
tokio = { version = "1", features = ["macros", "rt-multi-thread", "process", "time"] }
clap = "4"
