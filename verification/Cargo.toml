[package]
name = "five_lines"
version = "0.1.0"
edition = "2021"
publish = false

[dependencies]
tree-sitter = "=0.25.10"
tree-sitter-python = "=0.23.6"
tree-sitter-javascript = "=0.23.1"
tree-sitter-typescript = "=0.23.2"
tree-sitter-java = "=0.23.5"
tree-sitter-go = "=0.23.4"
tree-sitter-php = "=0.23.11"
tree-sitter-rust = "=0.23.3"
tree-sitter-c = "=0.23.4"
tree-sitter-cpp = "=0.23.4"
tree-sitter-c-sharp = "=0.23.5"
regex = "=1.13.1"
serde = { version = "=1.0.229", features = ["derive"] }
serde_json = "=1.0.154"
anyhow = "=1.0.104"
clap = { version = "=4.6.7", features = ["derive"] }
ignore = "=0.4.34"
ureq = { version = "=2.12.1", features = ["json"] }
