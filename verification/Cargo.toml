[package]
name = "frost"
version = "0.1.0"
edition = "2021"
publish = false

[dependencies]
bpaf = { version = "*", features = ["autocomplete"] }
bzip2 = "*"
chrono = { version = "*", default-features = false, features = ["std"] }
itertools = "*"
lz4_flex = "*"
