[package]
name = "diskard"
version = "0.1.2"
edition = "2021"
publish = false

[dependencies]
boxcar = "0.2"
rayon = "1"
thiserror = "2"
trash = "5"
crossterm = "0.28"
ratatui = "0.29"

[dev-dependencies]
tempfile = "3"
