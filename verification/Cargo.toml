[package]
name = "pool_telemetry"
version = "0.1.0"
edition = "2021"
publish = false

[dependencies]
numtoa = "=1.0.1"
one-wire-bus = "=0.1.1"
ds18b20 = "=0.1.1"
embedded-hal = "=0.2.7"

[dev-dependencies]
ryu = "=1.0.23"
