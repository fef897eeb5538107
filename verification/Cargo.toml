[package]
name = "semantic_memory"
version = "0.1.0"
edition = "2021"
publish = false

[dependencies]
anyhow = "*"
log = "*"
lm-studio-api-extended = "*"
openai_api_rust = "*"
tokio = { version = "*", features = ["rt-multi-thread", "macros", "signal", "time"] }
