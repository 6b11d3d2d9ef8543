[package]
name = "proto_ecs"
version = "0.1.0"
edition = "2021"
publish = false

[dependencies]
scc = "=2.4.0"
topological-sort = "=0.2.2"
bitvec = "=1.1.1"
vector-map = "=1.1.0"
nohash-hasher = "=0.2.0"
