[package]
name = "memscan"
version = "0.1.0"
edition = "2021"
publish = false

[dependencies]
log = "0.4"
serde = { version = "1", features = ["derive"] }
winapi = { version = "0.3", features = ["psapi", "memoryapi", "processthreadsapi", "winnt", "minwindef", "handleapi", "impl-default"] }
