[package]
name = "stegno"
version = "0.1.0"
edition = "2021"
publish = false

[dependencies]
image = { version = "*", default-features = false, features = ["png", "jpeg", "bmp"] }
ratatui = "*"
ratatui-explorer = "*"
structopt = "0.3"
tui-input = "*"
