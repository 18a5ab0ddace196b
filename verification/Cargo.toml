[package]
name = "pk_flight_log"
version = "0.2.0"
edition = "2021"
publish = false

[dependencies]
crc = "3"
heapless = "0.9"
