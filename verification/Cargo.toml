[package]
name = "crustivity_core"
version = "0.1.0"
edition = "2021"
publish = false

[dependencies]
slotmap = "1"
dashmap = "5"
parking_lot = "0.12"
sharded-slab = "0.1"
log = "0.4"
graphviz-rust = "0.6"
