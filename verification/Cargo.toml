[package]
name = "matrix_io"
version = "0.1.0"
edition = "2021"
publish = false

[dependencies]
axum = { version = "0.8", features = ["ws"] }
capnp = "0.20"
console_error_panic_hook = "0.1"
futures = "0.3"
geo = "0.29"
js-sys = "0.3"
rand = "0.8"
tokio = { version = "1", features = ["full"] }
tower-http = { version = "0.6", features = ["cors", "fs"] }
wasm-bindgen = "0.2"
web-sys = { version = "0.3", features = ["BinaryType", "CanvasPattern", "CanvasRenderingContext2d", "CssStyleDeclaration", "Document", "Element", "Event", "EventTarget", "HtmlCanvasElement", "HtmlElement", "HtmlImageElement", "KeyboardEvent", "Location", "MessageEvent", "MouseEvent", "Node", "Performance", "Storage", "Touch", "TouchEvent", "TouchList", "WebSocket", "WheelEvent", "Window", "XmlHttpRequest", "console"] }
