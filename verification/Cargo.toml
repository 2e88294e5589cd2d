[package]
name = "evaluations"
version = "0.1.0"
edition = "2021"
publish = false

[dependencies]
fst = "0.4"
serde = { version = "1", features = ["derive"] }
serde_json = "1"
lazy_static = "1"
plotters = { version = "0.3", default-features = false, features = ["bitmap_backend", "bitmap_encoder", "ab_glyph"] }
