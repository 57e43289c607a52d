[package]
name = "aerial"
version = "0.1.0"
edition = "2021"
publish = false

[dependencies]
petgraph = "0.6"
serde = { version = "1", features = ["derive"] }
serde_json = "1"
yrs = "0.18"
wasm-bindgen = "0.2"
js-sys = "0.3"
web-sys = { version = "0.3", features = ["Window", "Document", "Element", "HtmlCanvasElement", "CanvasRenderingContext2d", "MouseEvent", "HtmlImageElement", "DomRect"] }
console_error_panic_hook = "0.1"
redb = "2"
tokio = { version = "1", features = ["rt", "rt-multi-thread"] }
