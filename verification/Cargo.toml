[package]
name = "qframe"
version = "0.1.0"
edition = "2021"
publish = false

[dependencies]
flate2 = "1"
crossterm = "*"
rustix = { version = "*", features = ["process", "pty", "termios", "fs", "event", "stdio"] }
nix = { version = "*", features = ["signal", "process", "term"] }
signal-hook = "*"
ratatui-core = "*"
ratatui-crossterm = "*"
