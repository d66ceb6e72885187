[package]
name = "rust_my_doc_search"
version = "0.1.0"
edition = "2021"
publish = false

[dependencies]
tantivy = "*"
tantivy-jieba = "*"
encoding = "*"
tokio = { version = "*", features = ["full"] }
dirs-next = "*"
