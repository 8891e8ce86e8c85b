[package]
name = "pt_fuser"
version = "0.1.0"
edition = "2021"
publish = false

[dependencies]
regex = "1"
prost = "0.14"
clap = { version = "4", features = ["derive"] }
rayon = "1"
eframe = { version = "0.33", default-features = false, features = ["glow", "x11", "default_fonts"] }
serde = { version = "1", features = ["derive"] }
bincode = "1"
flate2 = "1"
