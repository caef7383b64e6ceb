[package]
name = "graphew"
version = "0.1.0"
edition = "2021"
publish = false

[dependencies]
petgraph = "=0.6.5"
egui_graphs = "=0.7.6"
fdg-sim = "=0.9.1"
egui = "=0.22.0"
crossbeam = "=0.8.5"
eframe = { version = "=0.22.0", default-features = false, features = ["glow"] }
rfd = "0.14"
