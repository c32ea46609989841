[package]
name = "import_graph"
version = "0.1.0"
edition = "2021"
publish = false

[dependencies]
natord = "1"
path-clean = "1"
tree-sitter = "*"
tree-sitter-javascript = "*"
tree-sitter-python = "*"
tree-sitter-rust = "*"
tree-sitter-cpp = "*"
streaming-iterator = "0.1"
ignore = "0.4"
mime_guess = "2"
log = "0.4"
env_logger = "*"
serde = { version = "1", features = ["derive"] }
serde_json = "1"
tokio = { version = "1", features = ["fs", "rt-multi-thread", "macros"] }
futures = "0.3"
actix-web = { version = "4", features = ["rustls-0_23"] }
actix-cors = "*"
rust-embed = "8"
rustls = "0.23"
rustls-pemfile = "2"
