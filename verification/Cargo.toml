[package]
name = "xer_to_csv"
version = "0.1.0"
edition = "2021"
publish = false

[dependencies]
csv = "=1.4.0"
encoding_rs = "=0.8.44"
rust_xlsxwriter = "=0.102.0"
walkdir = "=2.5.0"
eframe = { version = "=0.29.1", default-features = false, features = ["default_fonts", "glow", "x11"] }
rfd = { version = "=0.15.4", default-features = false, features = ["xdg-portal", "tokio"] }
