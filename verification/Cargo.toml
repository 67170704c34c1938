[package]
name = "neosuggest"
version = "0.1.0"
edition = "2021"
publish = false

[dependencies]
itertools = "*"
common-path = "*"
dirs = "*"
shell-words = "*"
argmap = "*"
anyhow = "*"
async-trait = "*"
futures = "*"
tokio = { version = "*", features = ["macros", "rt-multi-thread"] }
ngrammatic = "*"
ignore = "*"
rayon = "*"
rustbreak = { version = "*", features = ["bin_enc"] }
serde = { version = "*", features = ["derive"] }
