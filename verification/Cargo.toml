[package]
name = "nowui"
version = "0.1.0"
edition = "2021"
publish = false

[dependencies]
image = "0.25"
serde_json = "1"
usvg = "*"
resvg = "*"
tiny-skia = "0.11"
cosmic-text = "*"
winit = "0.30"
notify = "*"
rfd = "*"
tokio = { version = "1", features = ["io-std", "macros", "rt-multi-thread"] }
tower-lsp = "0.20"
syn = "2"
quote = "1"
proc-macro2 = "1"
