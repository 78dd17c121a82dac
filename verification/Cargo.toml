[package]
name = "nova_tree"
version = "0.1.0"
edition = "2021"
publish = false

[dependencies]
crossbeam-queue = "0.3"
crossbeam-deque = "0.8"
num_cpus = "1"
core_affinity = "0.8"
merlin = "3"
