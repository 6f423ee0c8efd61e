[package]
name = "spine"
version = "0.1.0"
edition = "2021"
publish = false

[dependencies]
differential-dataflow = "=0.25.1"
timely = "=0.31.0"
