[package]
name = "sichuan_solver"
version = "0.1.0"
edition = "2021"
publish = false

[dependencies]
ndarray = "0.15"
yew = "0.19"
wasm-bindgen = "0.2"
wasm-bindgen-futures = "0.4"
js-sys = "0.3"
futures = "0.3"
base64 = "0.13"
log = "0.4"
wasm-logger = "0.2"
web-sys = { version = "0.3", features = ["CanvasRenderingContext2d", "HtmlCanvasElement", "HtmlImageElement", "HtmlInputElement", "MouseEvent", "Element", "Node", "Event", "EventTarget", "Window", "Document", "DomRect", "HtmlElement"] }
