[package]
name = "jack"
version = "0.1.0"
edition = "2021"
publish = false

[dependencies]
anyhow = "1"
clap = { version = "4", features = ["derive"] }
compact_str = "*"
im-rc = "15"
lalrpop-util = "*"
once_cell = "1"
rustc_apfloat = "*"
rustyline = "*"
serde = { version = "1", features = ["derive"] }
serde_json = "1"
thiserror = "1"
