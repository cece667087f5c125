[package]
name = "mist"
version = "0.1.0"
edition = "2021"
publish = false

[dependencies]
ansi_term = "*"
clap = { version = "*", features = ["derive"] }
exitcode = "*"
libc = "*"
quit = "*"
rust-apt = "*"
which = "*"
