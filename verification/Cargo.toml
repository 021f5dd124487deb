[package]
name = "rss2email"
version = "0.1.0"
edition = "2021"
publish = false

[dependencies]
rss = "*"
atom_syndication = "*"
rmp-serde = "*"
serde = { version = "*", features = ["derive"] }
toml = "*"
clap = "*"
lettre = { version = "*", default-features = false, features = ["smtp-transport", "builder"] }
reqwest = { version = "*", default-features = false, features = ["blocking"] }
