[package]
name = "rg-opendal"
version = "0.1.0"
edition = "2021"
publish = false

[dependencies]
anyhow = "=1.0.104"
clap = { version = "=4.6.7", features = ["derive"] }
futures = "=0.3.34"
grep-matcher = "=0.1.9"
grep-printer = "=0.2.2"
grep-regex = "=0.1.14"
grep-searcher = "=0.1.17"
ignore = "=0.4.34"
opendal = { version = "=0.59.5", default-features = false, features = ["services-s3", "services-fs"] }
termcolor = "=1.4.1"
tokio = { version = "=1.54.1", features = ["macros", "rt-multi-thread"] }
