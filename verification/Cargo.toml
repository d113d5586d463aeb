[package]
name = "cache_algos"
version = "0.1.0"
edition = "2021"
publish = false

[dependencies]
rand = "0.4"
slog = "1"
slog-term = "1"
slog-envlogger = "0.5"
