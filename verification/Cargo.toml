[package]
name = "rtn-mq"
version = "0.1.0"
edition = "2021"
publish = false

[dependencies]
base64 = "0.22"
bytes = "1"
iroh = "1"
libc = "0.2"
minicbor = { version = "2", features = ["std"] }
rand = "*"
rtrb = "0.3"
sha2 = "*"
thiserror = "2"
tokio = { version = "1", features = ["rt-multi-thread", "macros", "time", "sync", "io-util", "signal"] }
tokio-util = "0.7"
