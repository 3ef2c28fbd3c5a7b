[package]
name = "mustache_core"
version = "0.1.0"
edition = "2021"
publish = false

[dependencies]
serde_json = "1"
v_htmlescape = "*"
serde = { version = "1", features = ["derive"] }
serde_yaml = "0.8"
syn = { version = "1", features = ["full"] }
quote = "1"
proc-macro2 = "1"
heck = "0.3"
wasm-bindgen = { version = "0.2", features = ["serde-serialize"] }
js-sys = "0.3"
wee_alloc = "0.4"
