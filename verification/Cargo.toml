[package]
name = "cloudevents_coap"
version = "0.1.0"
edition = "2021"
publish = false

[dependencies]
cloudevents-sdk = "=0.9.0"
coap-lite = "=0.13.3"

[dev-dependencies]
serde_json = "1"
