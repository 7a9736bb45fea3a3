[package]
name = "macro_traffic_sim_core"
version = "0.1.1"
edition = "2021"
publish = false

[dependencies]
mlua = { version = "*", features = ["lua54", "vendored"] }
ordered-float = "*"
rayon = "*"
