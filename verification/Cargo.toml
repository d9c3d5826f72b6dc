[package]
name = "mercury"
version = "0.1.0"
edition = "2021"
publish = false

[dependencies]
chrono = { version = "0.4", default-features = false, features = ["std", "clock"] }
cron = "*"
itertools = "*"
string-interner = "*"
pest = "2"
pest_derive = "2"
wasm-bindgen = "0.2"
console_error_panic_hook = "0.1"
