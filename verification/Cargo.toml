[package]
name = "core_latency"
version = "0.1.0"
edition = "2021"
publish = false

[dependencies]
libc = "=0.2.190"
winapi = { version = "=0.3.9", features = ["sysinfoapi", "winnt", "processthreadsapi", "winbase"] }

[dev-dependencies]
crossbeam-utils = "0.8"
