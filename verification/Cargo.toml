[package]
name = "speech2text"
version = "0.1.0"
edition = "2021"
publish = false

[dependencies]
anyhow = "1"
axum = { version = "0.8", features = ["ws"] }
clap = { version = "4", features = ["derive"] }
console_error_panic_hook = "0.1"
ffmpeg-next = "8"
hf-hub = { version = "0.5", default-features = false, features = ["ureq"] }
hound = "3"
js-sys = "0.3"
knf-rs = "0.3"
leptos = { version = "0.8", features = ["ssr"] }
leptos_axum = "0.8"
leptos_meta = { version = "0.8", features = ["ssr"] }
leptos_router = { version = "0.8", features = ["ssr"] }
ort = { version = "=2.0.0-rc.12", default-features = false, features = ["std", "ndarray", "tracing", "api-24", "load-dynamic", "cuda"] }
serde = { version = "1", features = ["derive"] }
serde_json = "1"
tokio = { version = "1", features = ["rt-multi-thread", "net", "macros"] }
tower-http = { version = "0.6", features = ["auth", "validate-request"] }
tracing = "0.1"
tracing-subscriber = { version = "0.3", features = ["env-filter"] }
wasm-bindgen = "0.2"
wasm-bindgen-futures = "0.4"
web-sys = { version = "0.3", features = ["AudioBuffer", "AudioContext", "AudioContextOptions", "AudioDestinationNode", "AudioNode", "AudioParam", "AudioProcessingEvent", "BaseAudioContext", "BinaryType", "GainNode", "Location", "MediaDevices", "MediaStream", "MediaStreamAudioSourceNode", "MediaStreamConstraints", "MediaStreamTrack", "MessageEvent", "Navigator", "Performance", "ScriptProcessorNode", "WebSocket", "Window"] }
