[package]
name = "wmfocus"
version = "0.1.0"
edition = "2021"
publish = false

[dependencies]
css-color-parser = "*"
clap = "2"
font-loader = "*"
cairo-rs = "*"
xcb = "*"
