[package]
name = "helix"
version = "0.1.0"
edition = "2021"
publish = false

[dependencies]
cosmic-text = "0.12"
cssparser = "=0.38.0"
encoding_rs = "=0.8.44"
fontdb = "0.16"
html5ever = "=0.39.0"
image = { version = "=0.25.10", default-features = false, features = ["png", "jpeg", "gif", "webp"] }
lightningcss = { version = "=1.0.0-alpha.72", default-features = false }
markup5ever_rcdom = "*"
precomputed-hash = "0.1"
resvg = { version = "=0.49.0", default-features = false }
rquickjs = { version = "0.6", default-features = false }
selectors = "=0.42.0"
sha2 = "=0.10.9"
taffy = "0.7"
tree-sitter = "=0.27.1"
tree-sitter-javascript = "=0.25.0"
tree-sitter-typescript = "=0.23.2"
wasmtime = { version = "36", default-features = false, features = ["component-model", "cranelift", "runtime", "std"] }
