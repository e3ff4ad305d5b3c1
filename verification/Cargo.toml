[package]
name = "pizza_analysis_pinyin"
version = "0.1.0"
edition = "2021"
publish = false

[dependencies]
hashbrown = "0.15"
pinyin = { version = "0.11", features = ["heteronym"] }
