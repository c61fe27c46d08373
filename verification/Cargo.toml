[package]
name = "brainfuck"
version = "0.1.0"
edition = "2021"
publish = false

[dependencies]
clap = { version = "4", features = ["derive"] }
color-eyre = "0.6"
dynasmrt = "2"
inkwell = { version = "0.5", features = ["llvm18-0"] }
