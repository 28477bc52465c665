[package]
name = "route_optimizer"
version = "0.1.0"
edition = "2021"
publish = false

[dependencies]
itertools = "*"
factorial = "*"
nu-ansi-term = "*"
scraper = "*"
ansi-escapes = "*"
chrono = "*"
clap = { version = "4", features = ["derive"] }
color-eyre = "*"
crossbeam = "*"
futures = "*"
reqwest = { version = "0.12", default-features = false, features = ["rustls-tls"] }
tokio = { version = "1", features = ["macros", "rt-multi-thread"] }
term_size = "*"
enable-ansi-support = "*"
