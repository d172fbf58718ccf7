[package]
name = "dregheap"
version = "0.1.0"
edition = "2021"
publish = false

[dependencies]
clap = { version = "=4.6.7", features = ["derive"] }
envy = "=0.4.2"
log = "=0.4.35"
logforth = { version = "=0.30.1", features = ["starter-log"] }
rmp-serde = "=1.3.1"
serde = { version = "=1.0.229", features = ["derive"] }
serde_repr = "=0.1.21"
tokio = { version = "=1.54.1", features = ["rt-multi-thread", "macros", "net", "io-util", "time", "signal", "sync"] }
tokio-util = { version = "=0.7.20", features = ["rt"] }
