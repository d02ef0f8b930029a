[package]
name = "cumulo-web"
version = "0.1.0"
edition = "2021"
publish = false

[dependencies]
leptos_router = { version = "=0.8.17", features = ["ssr"] }
leptos = "=0.8.23"
serde = { version = "=1.0.229", features = ["derive"] }
serde_json = "=1.0.154"
js-sys = "=0.3.107"
wasm-bindgen = "=0.2.130"
web-sys = { version = "=0.3.107", features = ["Window", "Document", "Element", "HtmlElement", "HtmlAnchorElement", "Blob", "BlobPropertyBag", "Url", "Node", "console"] }
gloo-storage = "=0.3.0"
console_error_panic_hook = "0.1"
