[package]
name = "ravel"
version = "0.1.0"
edition = "2021"
publish = false

[dependencies]
atomic-waker = "=1.1.2"
futures-micro = "=0.5.0"
gloo-events = "=0.2.0"
gloo-utils = "=0.2.0"
lightningcss = { version = "=1.0.0-alpha.72", default-features = false }
wasm-bindgen = "=0.2.129"
wasm-bindgen-futures = "=0.4.79"
web-sys = { version = "=0.3.106", features = ["Comment", "Document", "Element", "Event", "EventTarget", "HtmlElement", "HtmlInputElement", "Node", "Text", "Window"] }
