[package]
name = "rustdirstat"
version = "0.1.0"
edition = "2021"
publish = false

[dependencies]
petgraph = "*"
num_cpus = "*"
jwalk = "*"
clap = { version = "4", features = ["derive"] }
anyhow = "*"
thiserror = "*"
trash = "*"
image = { version = "*", default-features = false, features = ["png"] }
tracing-subscriber = { version = "*", features = ["env-filter", "fmt"] }
eframe = { version = "*", default-features = false, features = ["glow", "default_fonts", "x11"] }
rfd = { version = "*", default-features = false, features = ["xdg-portal", "async-std"] }
