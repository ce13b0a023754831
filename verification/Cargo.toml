[package]
name = "bloom"
version = "0.1.0"
edition = "2021"
publish = false

[dependencies]
async-channel = "=2.5.0"
async-trait = "=0.1.92"
futures-util = { version = "=0.3.34", features = ["channel"] }
pin-project = "=1.1.13"
tokio = { version = "=1.54.1", features = ["rt", "rt-multi-thread", "macros"] }
wasm-bindgen = "=0.2.129"
wasm-bindgen-futures = "=0.4.79"
weak-table = "=0.3.2"
web-sys = { version = "=0.3.106", features = ["Comment", "Document", "Element", "Event", "EventTarget", "HtmlElement", "Node", "NodeList", "Text", "Window", "console"] }
