[package]
name = "domino"
version = "0.1.0"
edition = "2021"
publish = false

[dependencies]
json-strip-comments = "=3.1.2"
napi = "=3.16.1"
napi-derive = "=3.7.0"
oxc_allocator = "0.99"
oxc_ast = "0.99"
oxc_ast_visit = "0.99"
oxc_parser = "0.99"
oxc_resolver = "11.14"
oxc_semantic = { version = "0.99", features = ["cfg"] }
oxc_span = "0.99"
rayon = "=1.12.0"
rustc-hash = "=2.1.3"
serde = { version = "=1.0.229", features = ["derive"] }
serde_json = "=1.0.154"
tracing = "=0.1.44"
walkdir = "=2.5.0"

[dev-dependencies]
tempfile = "=3.27.0"
