[package]
name = "bweb"
version = "0.1.0"
edition = "2021"
publish = false

[dependencies]
bevy_app = "0.17"
bevy_ecs = "0.17"
bevy_platform = "0.17"
futures = "0.3"
log = "0.4"
wasm-bindgen = "0.2"
wasm-bindgen-futures = "0.4"
web-sys = { version = "0.3", features = ["Window", "Location", "Url", "History", "PopStateEvent", "PointerEvent", "MouseEvent", "Event"] }
