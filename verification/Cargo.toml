[package]
name = "rust_kernel"
version = "0.1.0"
edition = "2021"
publish = false

[dependencies]
serde = { version = "=1.0.229", features = ["derive"] }
serde_json = { version = "=1.0.154", features = ["raw_value"] }
csv = "=1.4.0"
rayon = "=1.12.0"
tiny_http = "=0.12.0"
tokio = { version = "=1.54.1", features = ["rt-multi-thread", "macros"] }
tonic = "=0.14.9"
prost = "=0.14.4"
tracing-subscriber = { version = "=0.3.23", features = ["env-filter", "fmt"] }
opentelemetry = "=0.33.1"
opentelemetry_sdk = "=0.33.1"
opentelemetry-otlp = "=0.33.1"
tracing-opentelemetry = "=0.34.0"
