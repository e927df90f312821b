[package]
name = "kubious"
version = "0.1.0"
edition = "2021"
publish = false

[dependencies]
kube = { version = "*", default-features = false, features = ["client", "config"] }
k8s-openapi = { version = "*", features = ["latest"] }
serde = { version = "*", features = ["derive"] }
serde_json = "*"
