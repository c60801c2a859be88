[package]
name = "cert-fixer"
version = "0.1.0"
edition = "2021"
publish = false

[dependencies]
anyhow = "=1.0.104"
futures-util = "=0.3.34"
k8s-openapi = { version = "=0.28.0", features = ["latest"] }
kube = { version = "=4.2.0", features = ["runtime"] }
tokio = { version = "=1.54.1", features = ["macros", "rt-multi-thread", "time"] }
