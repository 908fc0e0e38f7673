[package]
name = "docx_template"
version = "0.1.0"
edition = "2021"
publish = false

[dependencies]
aho-corasick = "*"
quick-xml = "*"
serde = { version = "*", features = ["derive"] }
serde_json = "*"
thiserror = "*"
zip = { version = "*", default-features = false, features = ["deflate"] }
