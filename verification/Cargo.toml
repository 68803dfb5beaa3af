[package]
name = "week_parity"
version = "0.1.0"
edition = "2021"
publish = false

[dependencies]
chrono = "0.4"
js-sys = "0.3"
wasm-bindgen = "0.2"
wasm-bindgen-futures = "0.4"
web-sys = { version = "0.3", features = ["Document", "Element", "Event", "EventTarget", "HtmlElement", "HtmlInputElement", "HtmlSelectElement", "MediaQueryList", "Node", "Response", "Window"] }
