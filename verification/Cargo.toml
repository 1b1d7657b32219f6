[package]
name = "tokon_tech_log"
version = "0.1.0"
edition = "2021"
publish = false

[dependencies]
serde = { version = "1", features = ["derive"] }
serde_json = "1"
yew = { version = "0.21", features = ["csr"] }
wasm-bindgen = "0.2"
wasm-bindgen-futures = "0.4"
js-sys = "0.3"
gloo-storage = "0.3"
gloo-file = { version = "0.3", features = ["futures"] }
web-sys = { version = "0.3", features = ["HtmlInputElement", "HtmlSelectElement", "HtmlTextAreaElement", "HtmlAnchorElement", "Blob", "Url", "Window", "Document", "Element", "HtmlElement", "Node", "FileList", "File"] }
