[package]
name = "local_runtime"
version = "0.1.0"
edition = "2021"
publish = false

[dependencies]
atomic-waker = "1"
concurrent-queue = "2"
futures-core = "0.3"
futures-io = "0.3"
log = "0.4"
rustix = { version = "0.38", features = ["event", "fs", "net", "pipe", "time"] }
slab = "0.4"
