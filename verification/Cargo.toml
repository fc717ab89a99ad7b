[package]
name = "renote"
version = "0.1.0"
edition = "2021"
publish = false

[dependencies]
anyhow = "1"
async-trait = "0.1"
chrono = "0.4"
clap = { version = "4", features = ["derive", "env"] }
convert_case = "0.6"
fs_extra = "1"
glob = "0.3"
is_executable = "1"
octocrab = "0.44"
regex = "1"
semver = "1"
tokio = { version = "1", features = ["macros", "rt-multi-thread"] }
tracing = "0.1"
tracing-log = "0.2"
tracing-subscriber = "0.3"
which = "6"
