[package]
name = "kafka_sink"
version = "0.1.0"
edition = "2021"
publish = false

[dependencies]
timely = "0.12"
differential-dataflow = "0.12"
rdkafka = "0.26"
prometheus = "0.12"
lazy_static = "1.4"
log = "0.4"
