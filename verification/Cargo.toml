[package]
name = "committee_scheduler"
version = "0.1.0"
edition = "2021"
publish = false

[dependencies]
futures = "0.1"
grpcio = "0.4"
protobuf = "2"
