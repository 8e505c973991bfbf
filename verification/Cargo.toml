[package]
name = "synapse_client"
version = "0.1.0"
edition = "2021"
publish = false

[dependencies]
serde = { version = "1", features = ["derive"] }
serde_json = "1"
web-sys = { version = "0.3", features = ["Window", "Storage", "Document", "Element", "HtmlHeadElement", "Node"] }
