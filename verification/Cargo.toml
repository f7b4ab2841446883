[package]
name = "pita"
version = "0.1.0"
edition = "2021"
publish = false

[dependencies]
crossterm = { version = "*", features = ["event-stream"] }
futures = "*"
futures-timer = "*"
tokio = { version = "*", features = ["macros", "rt-multi-thread", "sync", "time"] }
tree-sitter-highlight = "*"
tree-sitter-rust = "*"
unicode-segmentation = "*"
unicode-width = "*"
