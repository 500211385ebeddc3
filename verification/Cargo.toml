[package]
name = "loom_topo"
version = "0.1.0"
edition = "2021"
publish = false

[dependencies]
petgraph = "=0.8.3"
blake3 = "=1.8.7"
hex = "=0.4.3"
serde = { version = "=1.0.229", features = ["derive"] }
thiserror = "=2.0.21"
anyhow = "=1.0.104"
clap = { version = "=4.6.7", features = ["derive"] }
tree-sitter = "=0.25.10"
tree-sitter-language = "=0.1.9"
tree-sitter-rust = "=0.24.2"
tree-sitter-typescript = "=0.23.2"
tree-sitter-python = "=0.23.6"
streaming-iterator = "=0.1.9"
notify-debouncer-mini = "=0.7.0"
rayon = "=1.12.0"
tokio = { version = "=1.54.1", features = ["rt-multi-thread", "macros"] }
tracing = "=0.1.44"
tracing-subscriber = { version = "=0.3.23", features = ["env-filter", "fmt"] }

[dev-dependencies]
tempfile = "=3.27.0"
