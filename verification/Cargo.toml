[package]
name = "keytool"
version = "0.1.0"
edition = "2021"
publish = false

[dependencies]
num-bigint = { version = "0.4", features = ["serde"] }
bincode = "1.3"
serde = { version = "1", features = ["derive"] }
anyhow = "1"
leptos = { version = "0.6", features = ["csr"] }
leptos_workers = "0.2"
web-sys = { version = "0.3", features = ["Url", "UrlSearchParams", "Window", "Location", "History", "Navigator", "Clipboard", "Event", "MouseEvent"] }
wasm-bindgen = "0.2"
wasm-bindgen-futures = "0.4"
console_error_panic_hook = "0.1"
