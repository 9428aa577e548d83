[package]
name = "leptos_csr_preload"
version = "0.1.0"
edition = "2021"
publish = false

[dependencies]
axum = "0.8"
convert_case = "0.8"
inventory = "0.3"
proc-macro2 = "1"
quote = "1"
serde = { version = "1", features = ["derive"] }
serde_json = "1"
syn = { version = "2", features = ["full"] }
thiserror = "2"
tower = { version = "0.5", features = ["util"] }
tower-http = { version = "0.6", features = ["fs"] }
